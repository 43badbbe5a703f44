use warc_curator::curate::{default_denylist, retained_text, score_analysis, TARGET_SCRIPT_PATTERN};
use warc_curator::decode::decode_payload;
use warc_curator::pipeline::page_text;
use warc_curator::score::Token;
use warc_curator::script::detect_language;
use warc_curator::select::{select_units, split_into_sentences};
use warc_curator::warc::{Step, WarcParser, WarcRecord};

const TITLE: [(&str, &str); 3] = [("日本語", "名詞"), ("の", "助詞"), ("タイトル", "名詞")];

const SENTENCE: [(&str, &str); 25] = [
    ("自然", "名詞"),
    ("言語", "名詞"),
    ("処理", "名詞"),
    ("の", "助詞"),
    ("技術", "名詞"),
    ("は", "助詞"),
    ("も", "助詞"),
    ("わたしたち", "名詞"),
    ("の", "助詞"),
    ("まいにち", "名詞"),
    ("の", "助詞"),
    ("くらし", "名詞"),
    ("を", "助詞"),
    ("ほんとうに", "副詞"),
    ("すこしずつ", "副詞"),
    ("ゆたか", "形状詞"),
    ("に", "助詞"),
    ("して", "動詞"),
    ("くれる", "動詞"),
    ("ものだ", "助動詞"),
    ("と", "助詞"),
    ("かんがえ", "動詞"),
    ("られて", "助動詞"),
    ("います", "動詞"),
    ("ね", "助詞"),
];

fn text_of(words: &[(&str, &str)]) -> String {
    words.iter().map(|w| w.0).collect()
}

fn tokens_of(words: &[(&str, &str)]) -> Vec<Token> {
    words
        .iter()
        .map(|w| Token { surface: w.0.to_string(), part_of_speech: Some(w.1.to_string()), subcategory: None })
        .collect()
}

fn response_record(html: &str) -> Vec<u8> {
    let payload = format!("HTTP/1.1 200 OK\r\nContent-Type: text/html; charset=utf-8\r\n\r\n{}", html);
    let mut bytes = Vec::new();
    bytes.extend_from_slice(b"WARC/1.0\r\nWARC-Type: response\r\n");
    bytes.extend_from_slice(format!("Content-Length: {}\r\n\r\n", payload.len()).as_bytes());
    bytes.extend_from_slice(payload.as_bytes());
    bytes.extend_from_slice(b"\r\n\r\n");
    bytes
}

fn records_of(input: &[u8]) -> Vec<WarcRecord> {
    let mut parser = WarcParser::new();
    parser.feed(input);
    parser.close();
    let mut records = Vec::new();
    loop {
        match parser.next_record() {
            Ok(Step::Record(record)) => records.push(record),
            Ok(Step::End) => return records,
            other => panic!("unexpected: {}", matches!(other, Ok(Step::NeedInput))),
        }
    }
}

/// Every stage but the morphological analysis, whose tokens are given.
fn curate(record: &WarcRecord, analysis: &[(&str, &str)]) -> Vec<String> {
    if !record.is_response() {
        return vec![];
    }
    let Some(document) = decode_payload(&record.content) else {
        return vec![];
    };
    if !document.is_html() || !detect_language(&document.body) {
        return vec![];
    }
    let Some(text) = page_text(&document.body) else {
        return vec![];
    };
    let Ok(kept) = retained_text(TARGET_SCRIPT_PATTERN, &text) else {
        return vec![];
    };
    let denylist = default_denylist();
    let mut scored = Vec::new();
    for sentence in split_into_sentences(&kept) {
        assert_eq!(sentence, text_of(analysis));
        scored.push(score_analysis(&sentence, &tokens_of(analysis), &denylist));
    }
    select_units(scored, &denylist)
}

#[test]
fn one_page_in_the_target_language_gives_one_unit() {
    let sentence = text_of(&SENTENCE);
    assert_eq!(sentence.chars().count(), 60);
    let page = format!(
        "<html><head><title>{}</title></head><body><p>{}。</p></body></html>",
        text_of(&TITLE),
        sentence
    );
    let other = "<html><head><title>News</title></head><body><p>Nothing but plain English text stands on this page, and a good deal of it.</p></body></html>";
    let mut input = response_record(&page);
    input.extend(response_record(other));
    let records = records_of(&input);
    assert_eq!(records.len(), 2);

    let mut analysis = TITLE.to_vec();
    analysis.extend_from_slice(&SENTENCE);
    let units = curate(&records[0], &analysis);
    assert_eq!(units, vec![format!("{}{}。", text_of(&TITLE), sentence)]);

    assert_eq!(curate(&records[1], &analysis), Vec::<String>::new());
}

#[test]
fn a_page_of_boilerplate_gives_nothing() {
    let words = [
        ("ログイン", "名詞"),
        ("して", "動詞"),
        ("ください", "動詞"),
        ("ね", "助詞"),
        ("そうすれば", "接続詞"),
        ("すべての", "連体詞"),
        ("きじを", "名詞"),
        ("よむことが", "名詞"),
        ("できるように", "動詞"),
        ("なりますので", "動詞"),
        ("どうぞよろしく", "副詞"),
        ("おねがいします", "動詞"),
    ];
    let page = format!("<html><body><p>{}。</p></body></html>", text_of(&words));
    let records = records_of(&response_record(&page));
    assert_eq!(records.len(), 1);
    assert_eq!(curate(&records[0], &words), Vec::<String>::new());
}
