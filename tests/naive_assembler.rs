use assembler::message::{decode, encode, Message};
use assembler::naive_assembler::NaiveAssembler;
use assembler::Assembler;

/// Encodes, fragments, reassembles and decodes `message`.
fn send_and_receive(message: Message) -> Message {
    let bytes = encode(message);
    let fragments = NaiveAssembler::disassemble(&bytes);
    let bytes = NaiveAssembler::reassemble(&fragments).unwrap();
    decode(&bytes).unwrap()
}

#[test]
fn fragment_and_reassemble_text_response_with_text() {
    let message = Message::TextResponse("This as a test string.".as_bytes().to_vec());
    let sent = message.clone();
    let received = send_and_receive(message);
    assert_eq!(sent, received);
}

#[test]
fn fragment_and_reassemble_text_response_with_text_list() {
    let message = Message::TextListResponse(vec![35, 987, 55, 68, 77, 33, 56, 7]);
    let sent = message.clone();
    let received = send_and_receive(message);
    assert_eq!(sent, received);
}

#[test]
fn fragment_and_reassemble_text_response_with_not_found() {
    let message = Message::NotFound;
    let sent = message.clone();
    let received = send_and_receive(message);
    assert_eq!(sent, received);
}

#[test]
fn fragment_and_reassemble_very_long_text_response() {
    let message = Message::TextResponse("Hello, World".repeat(100_000).into_bytes());
    let sent = message.clone();
    let received = send_and_receive(message);
    assert_eq!(sent, received);
}

#[test]
fn fragment_and_reassemble_long_text_response() {
    let message = Message::TextResponse("Hello, World".repeat(1000).into_bytes());
    let sent = message.clone();
    let received = send_and_receive(message);
    assert_eq!(sent, received);
}

#[test]
fn fragment_and_reassemble_text_request_text() {
    let message = Message::TextRequest(74);
    let sent = message.clone();
    let received = send_and_receive(message);
    assert_eq!(sent, received);
}

#[test]
fn fragment_and_reassemble_text_request_list() {
    let message = Message::TextListRequest;
    let sent = message.clone();
    let received = send_and_receive(message);
    assert_eq!(sent, received);
}

#[test]
fn fragment_and_reassemble_media_response_list() {
    let message = Message::MediaListResponse(vec![56, 87, 97, 66]);
    let sent = message.clone();
    let received = send_and_receive(message);
    assert_eq!(sent, received);
}

#[test]
fn fragment_and_reassemble_media_response() {
    let message = Message::MediaResponse(vec![4, 7, 9, 6, 4, 6, 6, 6, 6, 7, 7, 8]);
    let sent = message.clone();
    let received = send_and_receive(message);
    assert_eq!(sent, received);
}

#[test]
fn fragment_and_reassemble_very_long_media_response() {
    let message = Message::MediaResponse(vec![4; 200_000]);
    let sent = message.clone();
    let received = send_and_receive(message);
    assert_eq!(sent, received);
}

#[test]
fn fragment_and_reassemble_long_media_response() {
    let message = Message::MediaResponse(vec![4; 24000]);
    let sent = message.clone();
    let received = send_and_receive(message);
    assert_eq!(sent, received);
}

#[test]
fn fragment_and_reassemble_media_request_list() {
    let message = Message::MediaListRequest;
    let sent = message.clone();
    let received = send_and_receive(message);
    assert_eq!(sent, received);
}

#[test]
fn fragment_and_reassemble_media_request_media() {
    let message = Message::MediaRequest(57);
    let sent = message.clone();
    let received = send_and_receive(message);
    assert_eq!(sent, received);
}

#[test]
fn fragment_and_reassemble_chat_request_list() {
    let message = Message::ClientListRequest;
    let sent = message.clone();
    let received = send_and_receive(message);
    assert_eq!(sent, received);
}

#[test]
fn fragment_and_reassemble_chat_request_register() {
    let message = Message::Register(8);
    let sent = message.clone();
    let received = send_and_receive(message);
    assert_eq!(sent, received);
}

#[test]
fn fragment_and_reassemble_chat_request_send_message() {
    let message = Message::SendMessage {
        from: 8,
        to: 3,
        message: String::from("Hello this is a test").into_bytes(),
    };
    let sent = message.clone();
    let received = send_and_receive(message);
    assert_eq!(sent, received);
}

#[test]
fn fragment_and_reassemble_chat_response_list() {
    let message = Message::ClientListResponse(vec![87, 7, 55, 43, 4, 8]);
    let sent = message.clone();
    let received = send_and_receive(message);
    assert_eq!(sent, received);
}

#[test]
fn fragment_and_reassemble_chat_response_message_from() {
    let message = Message::MessageFrom {
        from: 8,
        message: vec![16; 204],
    };
    let sent = message.clone();
    let received = send_and_receive(message);
    assert_eq!(sent, received);
}

#[test]
fn fragment_and_reassemble_chat_response_message_sent() {
    let message = Message::MessageSent;
    let sent = message.clone();
    let received = send_and_receive(message);
    assert_eq!(sent, received);
}
