use assembler::fragment::{Fragment, ReassembleError, FRAGMENT_DSIZE};
use assembler::message::{decode, encode, DecodeError, Message};
use assembler::naive_assembler::NaiveAssembler;
use assembler::Assembler;

fn sample_bytes(n: usize) -> Vec<u8> {
    (0..n).map(|i| (i * 7 + 3) as u8).collect()
}

fn all_variants() -> Vec<Message> {
    vec![
        Message::TextListRequest,
        Message::TextRequest(u64::MAX),
        Message::MediaListRequest,
        Message::MediaRequest(0x0102_0304_0506_0708),
        Message::ClientListRequest,
        Message::Register(255),
        Message::SendMessage { from: 1, to: 2, message: vec![] },
        Message::ServerTypeRequest,
        Message::TextListResponse(vec![]),
        Message::TextResponse(b"text".to_vec()),
        Message::NotFound,
        Message::MediaListResponse(vec![1, u64::MAX, 0]),
        Message::MediaResponse(vec![0; 300]),
        Message::ClientListResponse(vec![]),
        Message::MessageFrom { from: 9, message: b"hi".to_vec() },
        Message::MessageSent,
        Message::ServerTypeResponse(2),
        Message::ErrorWrongClientId(42),
    ]
}

#[test]
fn every_variant_round_trips_through_codec() {
    for (tag, m) in all_variants().into_iter().enumerate() {
        let bytes = encode(m.clone());
        assert_eq!(bytes[0] as usize, tag);
        assert_eq!(decode(&bytes), Ok(m));
    }
}

#[test]
fn buffers_round_trip_through_fragments() {
    for n in [0, 1, 5, 127, 128, 129, 255, 256, 257, 1000, 3 * 128] {
        let bytes = sample_bytes(n);
        let fragments = NaiveAssembler::disassemble(&bytes);
        assert_eq!(NaiveAssembler::reassemble(&fragments), Ok(bytes));
    }
}

#[test]
fn split_fragments_are_numbered_and_full_but_last() {
    let bytes = sample_bytes(1000);
    let fragments = NaiveAssembler::disassemble(&bytes);
    assert_eq!(fragments.len(), 8);
    for (i, f) in fragments.iter().enumerate() {
        assert_eq!(f.fragment_index, i as u64);
        assert_eq!(f.total_n_fragments, 8);
        if i + 1 < fragments.len() {
            assert_eq!(f.length as usize, FRAGMENT_DSIZE);
        }
    }
    let last = &fragments[7];
    assert_eq!(last.length as usize, 1000 - 7 * 128);
    assert_eq!(&last.data[..104], &bytes[896..]);
    assert!(last.data[104..].iter().all(|b| *b == 0));
}

#[test]
fn empty_buffer_gives_one_empty_fragment() {
    let fragments = NaiveAssembler::disassemble(&[]);
    assert_eq!(fragments.len(), 1);
    assert_eq!(fragments[0].length, 0);
    assert_eq!(fragments[0].fragment_index, 0);
    assert_eq!(fragments[0].total_n_fragments, 1);
    assert_eq!(NaiveAssembler::reassemble(&fragments), Ok(vec![]));
}

#[test]
fn join_ignores_input_order() {
    let bytes = sample_bytes(700);
    let fragments = NaiveAssembler::disassemble(&bytes);
    let mut reversed = fragments.clone();
    reversed.reverse();
    let mut rotated = fragments.clone();
    rotated.rotate_left(2);
    let expected = NaiveAssembler::reassemble(&fragments);
    assert_eq!(NaiveAssembler::reassemble(&reversed), expected);
    assert_eq!(NaiveAssembler::reassemble(&rotated), expected);
    assert_eq!(expected, Ok(bytes));
}

#[test]
fn join_of_nothing_is_an_empty_set() {
    assert_eq!(NaiveAssembler::reassemble(&[]), Err(ReassembleError::EmptyFragmentSet));
}

#[test]
fn join_with_shared_index_is_a_duplicate() {
    let fragments = NaiveAssembler::disassemble(&sample_bytes(300));
    let with_copy = vec![fragments[0], fragments[1], fragments[1]];
    assert_eq!(NaiveAssembler::reassemble(&with_copy), Err(ReassembleError::DuplicateIndex));
    let mut other = fragments[2];
    other.fragment_index = 50;
    let far_apart = vec![other, fragments[0], other];
    assert_eq!(NaiveAssembler::reassemble(&far_apart), Err(ReassembleError::DuplicateIndex));
}

#[test]
fn join_with_gap_is_missing_a_fragment() {
    let fragments = NaiveAssembler::disassemble(&sample_bytes(300));
    let gap = vec![fragments[0], fragments[2]];
    assert_eq!(NaiveAssembler::reassemble(&gap), Err(ReassembleError::MissingFragment));
    let no_first = vec![fragments[1]];
    assert_eq!(NaiveAssembler::reassemble(&no_first), Err(ReassembleError::MissingFragment));
}

#[test]
fn join_zero_fills_short_middle_fragment() {
    let mut first = Fragment { fragment_index: 0, total_n_fragments: 2, length: 2, data: [0; FRAGMENT_DSIZE] };
    first.data[0] = 9;
    first.data[1] = 8;
    first.data[2] = 7;
    let mut second = Fragment { fragment_index: 1, total_n_fragments: 2, length: 1, data: [0; FRAGMENT_DSIZE] };
    second.data[0] = 5;
    let joined = NaiveAssembler::reassemble(&[second, first]).unwrap();
    let mut expected = vec![0u8; 129];
    expected[0] = 9;
    expected[1] = 8;
    expected[128] = 5;
    assert_eq!(joined, expected);
}

#[test]
fn unknown_tag_is_refused() {
    assert_eq!(decode(&[255, 1, 2]), Err(DecodeError::UnknownTag));
    assert_eq!(decode(&[18]), Err(DecodeError::UnknownTag));
}

#[test]
fn malformed_payloads_are_refused() {
    assert_eq!(decode(&[]), Err(DecodeError::MalformedPayload));
    assert_eq!(decode(&[0, 1]), Err(DecodeError::MalformedPayload));
    assert_eq!(decode(&[1, 1, 2, 3]), Err(DecodeError::MalformedPayload));
    assert_eq!(decode(&[9, 5, 0, 0, 0, 0, 0, 0, 0, 1, 2]), Err(DecodeError::MalformedPayload));
    assert_eq!(decode(&[8, 1, 0, 0, 0, 0, 0, 0, 0, 1, 2, 3]), Err(DecodeError::MalformedPayload));
    assert_eq!(decode(&[6, 1]), Err(DecodeError::MalformedPayload));
    assert_eq!(decode(&[14]), Err(DecodeError::MalformedPayload));
}

#[test]
fn capacity_sized_buffer_is_one_full_fragment() {
    let fragments = NaiveAssembler::disassemble(&sample_bytes(FRAGMENT_DSIZE));
    assert_eq!(fragments.len(), 1);
    assert_eq!(fragments[0].length as usize, FRAGMENT_DSIZE);
}

#[test]
fn one_byte_past_capacity_spills_into_second_fragment() {
    let bytes = sample_bytes(FRAGMENT_DSIZE + 1);
    let fragments = NaiveAssembler::disassemble(&bytes);
    assert_eq!(fragments.len(), 2);
    assert_eq!(fragments[0].length as usize, FRAGMENT_DSIZE);
    assert_eq!(fragments[1].length, 1);
    assert_eq!(fragments[1].data[0], bytes[FRAGMENT_DSIZE]);
}

#[test]
fn client_list_request_travels_in_one_byte() {
    let bytes = encode(Message::ClientListRequest);
    assert_eq!(bytes, vec![4]);
    let fragments = NaiveAssembler::disassemble(&bytes);
    assert_eq!(fragments.len(), 1);
    assert_eq!(fragments[0].length, 1);
    let joined = NaiveAssembler::reassemble(&fragments).unwrap();
    assert_eq!(decode(&joined), Ok(Message::ClientListRequest));
}

#[test]
fn large_payload_survives_shuffled_fragments() {
    let payload: Vec<u8> = (0..200_000u32).map(|i| (i % 251) as u8).collect();
    let bytes = encode(Message::MediaResponse(payload.clone()));
    assert_eq!(bytes.len(), 1 + 8 + 200_000);
    let mut fragments = NaiveAssembler::disassemble(&bytes);
    let expected_count = (bytes.len() + FRAGMENT_DSIZE - 1) / FRAGMENT_DSIZE;
    assert_eq!(fragments.len(), expected_count);
    fragments.reverse();
    fragments.swap(0, 17);
    fragments.rotate_left(333);
    let joined = NaiveAssembler::reassemble(&fragments).unwrap();
    assert_eq!(decode(&joined), Ok(Message::MediaResponse(payload)));
}

#[test]
fn identifiers_are_little_endian() {
    assert_eq!(encode(Message::TextRequest(74)), vec![1, 74, 0, 0, 0, 0, 0, 0, 0]);
    assert_eq!(encode(Message::Register(8)), vec![5, 8]);
    assert_eq!(
        encode(Message::MediaListResponse(vec![0x0201])),
        vec![11, 1, 0, 0, 0, 0, 0, 0, 0, 1, 2, 0, 0, 0, 0, 0, 0]
    );
}

#[test]
fn byte_payloads_are_length_prefixed() {
    assert_eq!(
        encode(Message::SendMessage { from: 8, to: 3, message: b"ab".to_vec() }),
        vec![6, 8, 3, 2, 0, 0, 0, 0, 0, 0, 0, b'a', b'b']
    );
    assert_eq!(
        encode(Message::MessageFrom { from: 7, message: vec![] }),
        vec![14, 7, 0, 0, 0, 0, 0, 0, 0, 0]
    );
    assert_eq!(decode(&[13, 2, 0, 0, 0, 0, 0, 0, 0, 5, 6]), Ok(Message::ClientListResponse(vec![5, 6])));
}
