use esl_client::data::ByteStream;
use esl_client::data::Event;
use esl_client::data::ParseError;
use esl_client::data::Pdu;
use esl_client::data::PduParser;
use esl_client::decode::decode_value;
use esl_client::encode::encode_frame;
use esl_client::headers::Header;

fn parse_bytes(data: &[u8]) -> Result<Pdu, ParseError> {
    let mut stream = ByteStream::new(data.to_vec());
    PduParser::parse(&mut stream)
}

#[test]
fn percent_decoding_decodes_spaces() {
    let decoded = decode_value(String::from("calls%20as%20json"));
    assert_eq!("calls as json", decoded.as_str());
}

#[test]
fn percent_decoding_handles_hex_letters() {
    assert_eq!("::1", decode_value(String::from("%3A%3A1")).as_str());
    assert_eq!(":", decode_value(String::from("%3a")).as_str());
}

#[test]
fn percent_decoding_leaves_malformed_escapes_unchanged() {
    assert_eq!("50%", decode_value(String::from("50%")).as_str());
    assert_eq!("a%zz", decode_value(String::from("a%zz")).as_str());
}

#[test]
fn encoded_frame_parses_back() {
    let mut headers = Header::new();
    headers.insert(String::from("Job-Name"), String::from("uptime"));
    headers.insert(String::from("Job-Owner"), String::from("calls%20as%20json"));
    let body: Vec<u8> = b"hello body".to_vec();

    let bytes = encode_frame(&headers, &body);
    let pdu = parse_bytes(&bytes).unwrap();

    assert_eq!("uptime", pdu.header("Job-Name").as_str());
    assert_eq!("calls as json", pdu.header("Job-Owner").as_str());
    assert_eq!("10", pdu.header("Content-Length").as_str());
    let text: String = pdu.parse().unwrap();
    assert_eq!("hello body", text.as_str());
}

#[test]
fn encoded_empty_frame_parses_back() {
    let headers = Header::new();
    let body: Vec<u8> = Vec::new();

    let bytes = encode_frame(&headers, &body);
    let pdu = parse_bytes(&bytes).unwrap();

    assert_eq!("0", pdu.header("Content-Length").as_str());
    assert!(pdu.is_empty());
}

#[test]
fn malformed_content_length_is_refused() {
    let r = parse_bytes(b"Content-Type: api/response\nContent-Length: abc\n\nxyz");
    assert!(matches!(r, Err(ParseError::NumError)));
}

#[test]
fn header_block_that_is_not_text_is_refused() {
    let r = parse_bytes(b"Content-Type: \xff\xfe\n\n");
    assert!(matches!(r, Err(ParseError::StringError)));
}

#[test]
fn truncated_body_is_refused() {
    let r = parse_bytes(b"Content-Length: 10\n\nabc");
    assert!(matches!(r, Err(ParseError::IOError)));
}

#[test]
fn event_projection_refuses_other_frame_kinds() {
    let pdu = parse_bytes(b"Content-Type: api/response\nContent-Length: 2\n\nok").unwrap();
    let r: Result<Event, ParseError> = pdu.parse();
    assert!(matches!(r, Err(ParseError::FromPduError(_))));
}

#[test]
fn event_projection_refuses_body_that_is_not_text() {
    let pdu = parse_bytes(b"Content-Type: text/event-plain\nContent-Length: 2\n\n\xff\xfe").unwrap();
    let r: Result<Event, ParseError> = pdu.parse();
    assert!(matches!(r, Err(ParseError::StrError)));
}

#[test]
fn event_reports_body_length_and_values() {
    let pdu = parse_bytes(b"Content-Type: text/event-plain\nContent-Length: 14\n\nEvent-Name: X\n")
        .unwrap();
    let event: Event = pdu.parse().unwrap();
    assert_eq!(14, event.len());
    assert_eq!("X", event.get("Event-Name").unwrap());
    assert!(event.get("Missing").is_none());
}

#[test]
fn last_occurrence_of_a_header_wins() {
    let pdu = parse_bytes(b"A: 1\nA: 2\n\n").unwrap();
    assert_eq!("2", pdu.header("A").as_str());
}

#[test]
fn header_keys_and_values_are_trimmed() {
    let pdu = parse_bytes(b"  Content-Type  :   command/reply  \n\n").unwrap();
    assert_eq!("command/reply", pdu.header("Content-Type").as_str());
}

#[test]
fn line_without_colon_is_ignored() {
    let pdu = parse_bytes(b"Content-Type: command/reply\nstray line\n\n").unwrap();
    assert_eq!("command/reply", pdu.header("Content-Type").as_str());
}

#[test]
fn missing_header_reads_as_empty() {
    let pdu = parse_bytes(b"Content-Type: command/reply\n\n").unwrap();
    assert_eq!("", pdu.header("Reply-Text").as_str());
    assert!(pdu.is_empty());
}

#[test]
fn header_map_insert_and_lookup() {
    let mut headers = Header::new();
    assert!(!headers.contains_key("A"));
    headers.insert(String::from("A"), String::from("1"));
    headers.insert(String::from("B"), String::from("2"));
    headers.insert(String::from("A"), String::from("3"));
    assert_eq!("3", headers.get("A").unwrap().as_str());
    assert_eq!("2", headers.get("B").unwrap().as_str());
    assert!(headers.get("C").is_none());
    assert!(headers.contains_key("A"));
    assert_eq!(2, headers.len());
}

#[test]
fn body_bytes_are_binary_safe() {
    let mut headers = Header::new();
    headers.insert(String::from("Content-Type"), String::from("api/response"));
    let body: Vec<u8> = vec![0u8, 255u8, 10u8, 13u8, 0u8];
    let bytes = encode_frame(&headers, &body);
    let pdu = parse_bytes(&bytes).unwrap();
    assert!(!pdu.is_empty());
    assert_eq!("5", pdu.header("Content-Length").as_str());
    let r: Result<String, ParseError> = pdu.parse();
    assert!(matches!(r, Err(ParseError::StrError)));
}
