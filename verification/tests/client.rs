use esl_client::blocking_client::Client;
use esl_client::blocking_client::ClientError;
use esl_client::blocking_client::Connection;
use esl_client::data::ByteStream;
use esl_client::data::Event;
use esl_client::data::ParseError;

/// Builds the inbound byte stream like an in-memory cursor: a 512-byte
/// zero-filled buffer overwritten (and extended where needed) by each
/// write in turn, so unwritten space stays zero.
fn cursor_with(writes: &[&[u8]]) -> Vec<u8> {
    let mut v = vec![0u8; 512];
    let mut pos = 0usize;
    for w in writes {
        for &b in w.iter() {
            if pos < v.len() {
                v[pos] = b;
            } else {
                v.push(b);
            }
            pos += 1;
        }
    }
    v
}

fn client_from(data: Vec<u8>) -> Client {
    Client::new(Connection::new(ByteStream::new(data)))
}

const EVENT_FRAME: &[u8] = b"Content-Length: 526\nContent-Type: text/event-plain\n\nEvent-Name: API\nCore-UUID: 2379c0b2-d1a9-465b-bdc6-ca55275e591b\nFreeSWITCH-Hostname: dafa872b4e1a\nFreeSWITCH-Switchname: 16.20.0.9\nFreeSWITCH-IPv4: 16.20.0.9\nFreeSWITCH-IPv6: %3A%3A1\nEvent-Date-Local: 2022-10-15%2015%3A32%3A56\nEvent-Date-GMT: Sat,%2015%20Oct%202022%2015%3A32%3A56%20GMT\nEvent-Date-Timestamp: 1665847976799920\nEvent-Calling-File: switch_loadable_module.c\nEvent-Calling-Function: switch_api_execute\nEvent-Calling-Line-Number: 2949\nEvent-Sequence: 5578\nAPI-Command: show\nAPI-Command-Argument: calls%20as%20json\n\n";

#[test]
fn blocking_client_it_authenticate() -> Result<(), &'static str> {
    let data = cursor_with(&[
        b"Content-Type: auth/request\n\n",
        b"Content-Type: command/reply\nReply-Text: +OK accepted\n\n",
    ]);
    let mut client = client_from(data);
    client.auth("test")?;
    assert_eq!(client.sent_bytes().as_slice(), b"auth test\n\n");
    Ok(())
}

#[test]
fn blocking_client_it_invalid_authentication() {
    let data = cursor_with(&[
        b"Content-Type: auth/request\n\n",
        b"Content-Type: command/reply\nReply-Text: -ERR invalid\n\n",
    ]);
    let mut client = client_from(data);
    assert_eq!("fails to authenticate", client.auth("test").unwrap_err());
}

#[test]
fn blocking_client_it_call_api() -> Result<(), ClientError> {
    // On a shared duplex cursor the 13 bytes of "api uptime \n\n" would be
    // overwritten by the client's own command before reading starts, so the
    // inbound stream effectively begins after them.
    let data = cursor_with(&[
        b"api uptime \n\n",
        b"Content-Type: api/response\nContent-Length: 6\n\n999666",
    ]);
    let inbound = data[13..].to_vec();
    let mut client = client_from(inbound);

    let pdu = client.api("uptime", "")?;

    let response: String = pdu.parse().unwrap();
    assert_eq!("999666", response);
    assert_eq!(client.sent_bytes().as_slice(), b"api uptime \n\n");
    Ok(())
}

#[test]
fn blocking_client_it_pull_event() -> Result<(), ClientError> {
    let data = cursor_with(&[EVENT_FRAME]);
    let mut client = client_from(data);

    let event: Event = client.pull_event()?;

    assert_eq!("API", event.get("Event-Name").unwrap());
    assert_eq!("show", event.get("API-Command").unwrap());
    Ok(())
}

#[test]
fn blocking_client_it_pull_event_with_urldecoded_values() -> Result<(), ClientError> {
    let data = cursor_with(&[EVENT_FRAME]);
    let mut client = client_from(data);

    let event: Event = client.pull_event()?;

    assert_eq!("calls as json", event.get("API-Command-Argument").unwrap());
    Ok(())
}

#[test]
fn it_handle_event_disconnection_from_server() {
    let data = cursor_with(&[
        b"Content-Type: text/disconnect-notice\nContent-Length: 67\n\nDisconnected, goodbye.\nSee you at ClueCon! http://www.cluecon.com/",
    ]);
    let mut client = client_from(data);

    let event = client.pull_event();
    assert_eq!(true, event.is_err());
}

#[test]
fn it_handle_socket_disconnection_from_server() {
    let data = cursor_with(&[b""]);
    let mut client = client_from(data);

    let event = client.pull_event();
    assert_eq!(true, event.is_err());
}

#[test]
fn lib_it_authenticate() -> Result<(), &'static str> {
    let data = cursor_with(&[
        b"Content-Type: auth/request\n\n",
        b"Content-Type: command/reply\nReply-Text: +OK accepted\n\n",
    ]);
    let mut client = client_from(data);
    client.auth("test")?;
    Ok(())
}

#[test]
fn lib_it_invalid_authentication() {
    let data = cursor_with(&[
        b"Content-Type: auth/request\n\n",
        b"Content-Type: command/reply\nReply-Text: -ERR invalid\n\n",
    ]);
    let mut client = client_from(data);
    assert_eq!("fails to authenticate", client.auth("test").unwrap_err());
}

#[test]
fn lib_it_call_api() -> Result<(), ClientError> {
    let data = cursor_with(&[
        b"api uptime \n\n",
        b"Content-Type: api/response\nContent-Length: 6\n\n999666",
    ]);
    let inbound = data[13..].to_vec();
    let mut client = client_from(inbound);

    let pdu = client.api("uptime", "")?;

    let response: String = pdu.parse().unwrap();
    assert_eq!("999666", response);
    Ok(())
}

#[test]
fn lib_it_pull_event() -> Result<(), ClientError> {
    let data = cursor_with(&[EVENT_FRAME]);
    let mut client = client_from(data);

    let event: Event = client.pull_event()?;

    assert_eq!("API", event.get("Event-Name").unwrap());
    assert_eq!("show", event.get("API-Command").unwrap());
    Ok(())
}

#[test]
fn lib_it_pull_event_with_urldecoded_values() -> Result<(), ClientError> {
    let data = cursor_with(&[EVENT_FRAME]);
    let mut client = client_from(data);

    let event: Event = client.pull_event()?;

    assert_eq!("calls as json", event.get("API-Command-Argument").unwrap());
    Ok(())
}

#[test]
fn auth_failure_leaves_session_usable() {
    let data = cursor_with(&[
        b"Content-Type: auth/request\n\n",
        b"Content-Type: command/reply\nReply-Text: -ERR invalid\n\n",
        b"Content-Type: auth/request\n\n",
        b"Content-Type: command/reply\nReply-Text: +OK accepted\n\n",
    ]);
    let mut client = client_from(data);

    assert_eq!("fails to authenticate", client.auth("wrong").unwrap_err());
    assert!(!client.is_closed());
    assert!(client.auth("right").is_ok());
}

#[test]
fn events_evict_oldest_when_capacity_exceeded() {
    // Three events flow in while an api call is waiting; with capacity two,
    // the oldest event is dropped and the remaining two keep their order.
    let data = cursor_with(&[
        b"Content-Length: 18\nContent-Type: text/event-plain\n\nEvent-Name: FIRST\n",
        b"Content-Length: 19\nContent-Type: text/event-plain\n\nEvent-Name: SECOND\n",
        b"Content-Length: 18\nContent-Type: text/event-plain\n\nEvent-Name: THIRD\n",
        b"Content-Type: api/response\nContent-Length: 2\n\nok",
        b"Content-Type: command/reply\nReply-Text: +OK\n\n",
        b"Content-Type: command/reply\nReply-Text: +OK\n\n",
    ]);
    let mut client = Client::with_capacity(Connection::new(ByteStream::new(data)), 2);

    let response = client.api("status", "").unwrap();
    assert_eq!("ok", response);

    let second = client.pull_event().unwrap();
    assert_eq!("SECOND", second.get("Event-Name").unwrap());
    let third = client.pull_event().unwrap();
    assert_eq!("THIRD", third.get("Event-Name").unwrap());
}

#[test]
fn pull_event_on_empty_input_fails_closed() {
    let mut client = client_from(Vec::new());
    let r = client.pull_event();
    assert!(matches!(r, Err(ClientError::ConnectionClose)));
    assert!(client.is_closed());
}

#[test]
fn unknown_content_type_is_a_protocol_violation() {
    let data = cursor_with(&[b"Content-Type: text/weird\n\n"]);
    let mut client = client_from(data);
    let r = client.pull_event();
    assert!(matches!(r, Err(ClientError::ProtocolViolation)));
}

#[test]
fn closed_session_fails_every_operation() {
    let data = cursor_with(&[b"Content-Type: text/disconnect-notice\n\n"]);
    let mut client = client_from(data);
    assert!(matches!(client.pull_event(), Err(ClientError::ConnectionClose)));
    assert!(client.is_closed());
    assert!(matches!(client.api("uptime", ""), Err(ClientError::ConnectionClose)));
    assert!(matches!(client.event("ALL"), Err(ClientError::ConnectionClose)));
    assert!(matches!(client.pull_event(), Err(ClientError::ConnectionClose)));
}

#[test]
fn subscribe_accepts_any_reply() {
    let data = cursor_with(&[b"Content-Type: command/reply\nReply-Text: -ERR refused\n\n"]);
    let mut client = client_from(data);
    assert!(client.event("ALL").is_ok());
    assert_eq!(client.sent_bytes().as_slice(), b"event plain ALL\n\n");
}

#[test]
fn api_refuses_response_body_that_is_not_text() {
    let data = cursor_with(&[
        b"Content-Type: api/response\nContent-Length: 2\n\n\xff\xfe",
    ]);
    let mut client = client_from(data);
    let r = client.api("uptime", "");
    assert!(matches!(r, Err(ClientError::ParseError(ParseError::StrError))));
}

#[test]
fn header_only_frame_without_classification_closes() {
    let data = cursor_with(&[b"Reply-Text: stray\n\n"]);
    let mut client = client_from(data);
    let r = client.pull_event();
    assert!(matches!(r, Err(ClientError::ConnectionClose)));
    assert!(client.is_closed());
}
