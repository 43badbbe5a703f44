use warc_curator::warc::{take_frame, Step, WarcError, WarcParser, WarcRecord};

fn record_bytes(kind: &str, payload: &[u8]) -> Vec<u8> {
    let mut bytes = Vec::new();
    bytes.extend_from_slice(b"WARC/1.0\r\n");
    bytes.extend_from_slice(format!("WARC-Type: {}\r\n", kind).as_bytes());
    bytes.extend_from_slice(format!("Content-Length: {}\r\n", payload.len()).as_bytes());
    bytes.extend_from_slice(b"\r\n");
    bytes.extend_from_slice(payload);
    bytes.extend_from_slice(b"\r\n\r\n");
    bytes
}

fn next(parser: &mut WarcParser) -> Result<Option<WarcRecord>, WarcError> {
    match parser.next_record() {
        Ok(Step::Record(record)) => Ok(Some(record)),
        Ok(Step::End) => Ok(None),
        Ok(Step::NeedInput) => panic!("more input asked of a closed parser"),
        Err(e) => Err(e),
    }
}

#[test]
fn framing_round_trip_of_three_records() {
    let payloads: [&[u8]; 3] = [b"hello", b"", b"WARC/1.0\r\nnot a record\r\n\xff\xfe"];
    let kinds = ["response", "request", "metadata"];
    let mut input = Vec::new();
    for k in 0..3 {
        input.extend(record_bytes(kinds[k], payloads[k]));
    }
    let mut parser = WarcParser::new();
    parser.feed(&input);
    parser.close();
    for k in 0..3 {
        let record = next(&mut parser).expect("no error").expect("a record");
        assert_eq!(record.content, payloads[k]);
        assert_eq!(record.header.get("warc-type"), Some(&kinds[k].to_string()));
        assert_eq!(record.header.get("content-length"), Some(&payloads[k].len().to_string()));
    }
    assert!(next(&mut parser).expect("no error").is_none());
    assert!(next(&mut parser).expect("no error").is_none());
    assert_eq!(parser.buffered(), 0);
}

#[test]
fn stream_ending_in_mid_payload_is_an_error() {
    let mut input = record_bytes("response", b"complete");
    let second = record_bytes("response", b"this one is cut short");
    input.extend_from_slice(&second[..second.len() - 10]);
    let mut parser = WarcParser::new();
    parser.feed(&input);
    parser.close();
    let first = next(&mut parser).expect("no error").expect("a record");
    assert_eq!(first.content, b"complete");
    assert_eq!(next(&mut parser).err(), Some(WarcError::Truncated));
    assert!(next(&mut parser).expect("no error").is_none());
}

#[test]
fn stream_ending_before_the_separator_is_an_error() {
    let whole = record_bytes("response", b"payload");
    for cut in 1..=4 {
        let mut parser = WarcParser::new();
        parser.feed(&whole[..whole.len() - cut]);
        parser.close();
        if cut <= 2 {
            let record = next(&mut parser).expect("no error").expect("a record");
            assert_eq!(record.content, b"payload");
        } else {
            assert_eq!(next(&mut parser).err(), Some(WarcError::Truncated));
        }
    }
}

#[test]
fn stream_ending_in_the_headers_is_an_error() {
    let mut parser = WarcParser::new();
    parser.feed(b"WARC/1.0\r\nWARC-Type: resp");
    parser.close();
    assert_eq!(next(&mut parser).err(), Some(WarcError::Truncated));
    let mut parser = WarcParser::new();
    parser.feed(b"WARC/1.0");
    parser.close();
    assert_eq!(next(&mut parser).err(), Some(WarcError::Truncated));
}

#[test]
fn records_come_out_as_the_input_arrives() {
    let mut input = record_bytes("response", b"first payload");
    input.extend(record_bytes("response", b"second"));
    let mut parser = WarcParser::new();
    let mut seen: Vec<Vec<u8>> = Vec::new();
    for byte in &input {
        parser.feed(&[*byte]);
        loop {
            match parser.next_record() {
                Ok(Step::Record(record)) => seen.push(record.content),
                Ok(Step::NeedInput) => break,
                Ok(Step::End) => panic!("end before the input was closed"),
                Err(e) => panic!("{:?}", e),
            }
        }
    }
    parser.close();
    assert!(matches!(parser.next_record(), Ok(Step::End)));
    assert_eq!(seen, vec![b"first payload".to_vec(), b"second".to_vec()]);
}

#[test]
fn lines_before_the_marker_are_skipped() {
    let mut input = b"junk line\r\n\r\nanother: line\n".to_vec();
    input.extend_from_slice(b"  WARC/1.0 \t\n");
    input.extend_from_slice(b"Content-Length: 2\nName:Value\n\nhi\r\n");
    let mut parser = WarcParser::new();
    parser.feed(&input);
    parser.close();
    let record = next(&mut parser).expect("no error").expect("a record");
    assert_eq!(record.content, b"hi");
    assert_eq!(record.header.get("name"), Some(&"Value".to_string()));
    assert_eq!(record.header.get("another"), None);
    assert!(next(&mut parser).expect("no error").is_none());
}

#[test]
fn content_length_defaults_to_zero() {
    let mut parser = WarcParser::new();
    parser.feed(b"WARC/1.0\r\nWARC-Type: response\r\n\r\n\r\n");
    parser.feed(b"WARC/1.0\r\nContent-Length: lots\r\n\r\n\r\n");
    parser.feed(b"WARC/1.0\r\nContent-Length: 3\r\nContent-Length: -3\r\n\r\n\r\n");
    parser.close();
    for _ in 0..3 {
        let record = next(&mut parser).expect("no error").expect("a record");
        assert_eq!(record.content, b"");
        assert_eq!(record.header.get("content-length"), Some(&"0".to_string()));
    }
    assert!(next(&mut parser).expect("no error").is_none());
}

#[test]
fn the_last_content_length_counts() {
    let mut parser = WarcParser::new();
    parser.feed(b"WARC/1.0\r\nContent-Length: 9\r\ncontent-length: +2\r\n\r\nabXY");
    parser.close();
    let record = next(&mut parser).expect("no error").expect("a record");
    assert_eq!(record.content, b"ab");
    assert_eq!(record.header.get("content-length"), Some(&"+2".to_string()));
}

#[test]
fn a_header_line_that_is_no_text_gives_up_the_record() {
    let mut input = b"WARC/1.0\r\nGood: yes\r\nBad: \xff\xff\r\nContent-Length: 2\r\n\r\nhi\r\n".to_vec();
    input.extend(record_bytes("response", b"next"));
    let mut parser = WarcParser::new();
    parser.feed(&input);
    parser.close();
    assert_eq!(next(&mut parser).err(), Some(WarcError::HeaderNotText));
    let record = next(&mut parser).expect("no error").expect("a record");
    assert_eq!(record.content, b"next");
}

#[test]
fn an_open_parser_waits_for_more() {
    let mut parser = WarcParser::new();
    assert!(matches!(parser.next_record(), Ok(Step::NeedInput)));
    parser.feed(b"noise\nWARC/1.0\r\nContent-Length: 4\r\n\r\nab");
    assert!(matches!(parser.next_record(), Ok(Step::NeedInput)));
    assert_eq!(parser.buffered(), b"WARC/1.0\r\nContent-Length: 4\r\n\r\nab".len());
    parser.feed(b"cd\r");
    assert!(matches!(parser.next_record(), Ok(Step::NeedInput)));
    parser.feed(b"\n");
    match parser.next_record() {
        Ok(Step::Record(record)) => assert_eq!(record.content, b"abcd"),
        _ => panic!("a record was due"),
    }
    assert_eq!(parser.buffered(), 0);
}

#[test]
fn the_front_of_a_buffer_is_read_in_one_call() {
    let record = record_bytes("response", b"payload");
    let mut input = b"skipped line\n".to_vec();
    input.extend_from_slice(&record);
    input.extend_from_slice(b"what follows");
    let (found, consumed) = take_frame(&input, false);
    match found {
        Ok(Step::Record(r)) => assert_eq!(r.content, b"payload"),
        _ => panic!("a record was due"),
    }
    assert_eq!(consumed, 13 + record.len() - 2);
    let (found, consumed) = take_frame(b"no marker\nhalf a line", false);
    assert!(matches!(found, Ok(Step::NeedInput)));
    assert_eq!(consumed, 10);
    let (found, consumed) = take_frame(b"no marker\nhalf a line", true);
    assert!(matches!(found, Ok(Step::End)));
    assert_eq!(consumed, 21);
}
