use vstd::prelude::*;

use vstd::bytes::{
    lemma_auto_spec_u64_to_from_le_bytes, spec_u64_from_le_bytes, spec_u64_to_le_bytes,
    u64_from_le_bytes, u64_to_le_bytes,
};

verus! {

/// Identifier of a node in the network.
pub type NodeId = u8;

/// Highest tag in use; every tag up to it names one variant.
pub const MAX_TAG: u8 = 17;

/// An application-level message. Each variant has its own tag byte, given
/// in its comment, which leads its encoding.
#[derive(Clone, Debug, PartialEq, Eq)]
pub enum Message {
    /// Tag 0.
    TextListRequest,
    /// Tag 1: the identifier of the requested text.
    TextRequest(u64),
    /// Tag 2.
    MediaListRequest,
    /// Tag 3: the identifier of the requested media.
    MediaRequest(u64),
    /// Tag 4.
    ClientListRequest,
    /// Tag 5: the node that registers.
    Register(NodeId),
    /// Tag 6.
    SendMessage { from: NodeId, to: NodeId, message: Vec<u8> },
    /// Tag 7.
    ServerTypeRequest,
    /// Tag 8: identifiers of the available texts.
    TextListResponse(Vec<u64>),
    /// Tag 9: the text's bytes.
    TextResponse(Vec<u8>),
    /// Tag 10.
    NotFound,
    /// Tag 11: identifiers of the available media.
    MediaListResponse(Vec<u64>),
    /// Tag 12: the media's bytes.
    MediaResponse(Vec<u8>),
    /// Tag 13: the registered clients.
    ClientListResponse(Vec<NodeId>),
    /// Tag 14.
    MessageFrom { from: NodeId, message: Vec<u8> },
    /// Tag 15.
    MessageSent,
    /// Tag 16: the kind of server that answers.
    ServerTypeResponse(u8),
    /// Tag 17: the client that the server does not know.
    ErrorWrongClientId(NodeId),
}

/// The mathematical value of a [`Message`]: sequences in place of vectors.
pub enum MessageView {
    TextListRequest,
    TextRequest(u64),
    MediaListRequest,
    MediaRequest(u64),
    ClientListRequest,
    Register(NodeId),
    SendMessage { from: NodeId, to: NodeId, message: Seq<u8> },
    ServerTypeRequest,
    TextListResponse(Seq<u64>),
    TextResponse(Seq<u8>),
    NotFound,
    MediaListResponse(Seq<u64>),
    MediaResponse(Seq<u8>),
    ClientListResponse(Seq<NodeId>),
    MessageFrom { from: NodeId, message: Seq<u8> },
    MessageSent,
    ServerTypeResponse(u8),
    ErrorWrongClientId(NodeId),
}

impl View for Message {
    type V = MessageView;

    open spec fn view(&self) -> MessageView {
        match self {
            Message::TextListRequest => MessageView::TextListRequest,
            Message::TextRequest(id) => MessageView::TextRequest(*id),
            Message::MediaListRequest => MessageView::MediaListRequest,
            Message::MediaRequest(id) => MessageView::MediaRequest(*id),
            Message::ClientListRequest => MessageView::ClientListRequest,
            Message::Register(n) => MessageView::Register(*n),
            Message::SendMessage { from, to, message } => MessageView::SendMessage {
                from: *from,
                to: *to,
                message: message@,
            },
            Message::ServerTypeRequest => MessageView::ServerTypeRequest,
            Message::TextListResponse(ids) => MessageView::TextListResponse(ids@),
            Message::TextResponse(t) => MessageView::TextResponse(t@),
            Message::NotFound => MessageView::NotFound,
            Message::MediaListResponse(ids) => MessageView::MediaListResponse(ids@),
            Message::MediaResponse(m) => MessageView::MediaResponse(m@),
            Message::ClientListResponse(c) => MessageView::ClientListResponse(c@),
            Message::MessageFrom { from, message } => MessageView::MessageFrom {
                from: *from,
                message: message@,
            },
            Message::MessageSent => MessageView::MessageSent,
            Message::ServerTypeResponse(k) => MessageView::ServerTypeResponse(*k),
            Message::ErrorWrongClientId(n) => MessageView::ErrorWrongClientId(*n),
        }
    }
}

/// Why a byte buffer does not decode into a message.
#[derive(Clone, Copy, Debug, PartialEq, Eq, Structural)]
pub enum DecodeError {
    /// The tag byte names no variant.
    UnknownTag,
    /// The buffer is empty, or the payload does not have the shape its tag
    /// calls for.
    MalformedPayload,
}

/// Eight little-endian bytes of `x`.
pub open spec fn enc_u64(x: u64) -> Seq<u8> {
    spec_u64_to_le_bytes(x)
}

/// A byte sequence behind its length as eight little-endian bytes.
pub open spec fn enc_bytes(b: Seq<u8>) -> Seq<u8> {
    enc_u64(b.len() as u64) + b
}

/// The eight-byte encodings of `xs`, one after the other.
pub open spec fn enc_u64_seq(xs: Seq<u64>) -> Seq<u8>
    decreases xs.len(),
{
    if xs.len() == 0 {
        Seq::empty()
    } else {
        enc_u64_seq(xs.drop_last()) + enc_u64(xs.last())
    }
}

/// A sequence of identifiers behind their count.
pub open spec fn enc_ids(xs: Seq<u64>) -> Seq<u8> {
    enc_u64(xs.len() as u64) + enc_u64_seq(xs)
}

/// The tag byte of each variant.
pub open spec fn tag_of(m: MessageView) -> u8 {
    match m {
        MessageView::TextListRequest => 0,
        MessageView::TextRequest(_) => 1,
        MessageView::MediaListRequest => 2,
        MessageView::MediaRequest(_) => 3,
        MessageView::ClientListRequest => 4,
        MessageView::Register(_) => 5,
        MessageView::SendMessage { .. } => 6,
        MessageView::ServerTypeRequest => 7,
        MessageView::TextListResponse(_) => 8,
        MessageView::TextResponse(_) => 9,
        MessageView::NotFound => 10,
        MessageView::MediaListResponse(_) => 11,
        MessageView::MediaResponse(_) => 12,
        MessageView::ClientListResponse(_) => 13,
        MessageView::MessageFrom { .. } => 14,
        MessageView::MessageSent => 15,
        MessageView::ServerTypeResponse(_) => 16,
        MessageView::ErrorWrongClientId(_) => 17,
    }
}

/// The payload bytes that follow the tag.
pub open spec fn payload_of(m: MessageView) -> Seq<u8> {
    match m {
        MessageView::TextRequest(id) => enc_u64(id),
        MessageView::MediaRequest(id) => enc_u64(id),
        MessageView::Register(n) => seq![n],
        MessageView::SendMessage { from, to, message } => seq![from, to] + enc_bytes(message),
        MessageView::TextListResponse(ids) => enc_ids(ids),
        MessageView::TextResponse(t) => enc_bytes(t),
        MessageView::MediaListResponse(ids) => enc_ids(ids),
        MessageView::MediaResponse(b) => enc_bytes(b),
        MessageView::ClientListResponse(c) => enc_bytes(c),
        MessageView::MessageFrom { from, message } => seq![from] + enc_bytes(message),
        MessageView::ServerTypeResponse(k) => seq![k],
        MessageView::ErrorWrongClientId(n) => seq![n],
        _ => Seq::empty(),
    }
}

/// The encoding of a message: its tag byte, then its payload.
pub open spec fn encoding(m: MessageView) -> Seq<u8> {
    seq![tag_of(m)] + payload_of(m)
}

/// The identifier in the eight bytes of `b` from `at`.
pub open spec fn dec_u64(b: Seq<u8>, at: int) -> u64 {
    spec_u64_from_le_bytes(b.subrange(at, at + 8))
}

/// `b` is exactly one identifier.
pub open spec fn parse_u64(b: Seq<u8>) -> Option<u64> {
    if b.len() == 8 {
        Some(dec_u64(b, 0))
    } else {
        None
    }
}

/// `b` is exactly one byte.
pub open spec fn parse_byte(b: Seq<u8>) -> Option<u8> {
    if b.len() == 1 {
        Some(b[0])
    } else {
        None
    }
}

/// `b` is exactly a length-prefixed byte sequence.
pub open spec fn parse_bytes(b: Seq<u8>) -> Option<Seq<u8>> {
    if b.len() >= 8 && b.len() - 8 == dec_u64(b, 0) {
        Some(b.subrange(8, b.len() as int))
    } else {
        None
    }
}

/// `b` is exactly a count-prefixed sequence of identifiers.
pub open spec fn parse_ids(b: Seq<u8>) -> Option<Seq<u64>> {
    if b.len() >= 8 && b.len() - 8 == 8 * dec_u64(b, 0) {
        Some(Seq::new(dec_u64(b, 0) as nat, |i: int| dec_u64(b, 8 + 8 * i)))
    } else {
        None
    }
}

/// Lifts a payload parse into a decode result.
pub open spec fn or_malformed<T>(o: Option<T>, f: spec_fn(T) -> MessageView) -> Result<
    MessageView,
    DecodeError,
> {
    match o {
        Some(v) => Ok(f(v)),
        None => Err(DecodeError::MalformedPayload),
    }
}

/// A payload-free variant, if nothing follows the tag.
pub open spec fn unit_or_malformed(rest: Seq<u8>, m: MessageView) -> Result<
    MessageView,
    DecodeError,
> {
    if rest.len() == 0 {
        Ok(m)
    } else {
        Err(DecodeError::MalformedPayload)
    }
}

/// Outcome of decoding `b`: the tag selects the variant, and the rest of
/// the buffer must be exactly that variant's payload.
pub open spec fn decode_result(b: Seq<u8>) -> Result<MessageView, DecodeError> {
    if b.len() == 0 {
        Err(DecodeError::MalformedPayload)
    } else {
        let rest = b.drop_first();
        let after_one = if rest.len() >= 1 {
            rest.drop_first()
        } else {
            Seq::empty()
        };
        let after_two = if rest.len() >= 2 {
            rest.subrange(2, rest.len() as int)
        } else {
            Seq::empty()
        };
        match b[0] {
            0 => unit_or_malformed(rest, MessageView::TextListRequest),
            1 => or_malformed(parse_u64(rest), |id: u64| MessageView::TextRequest(id)),
            2 => unit_or_malformed(rest, MessageView::MediaListRequest),
            3 => or_malformed(parse_u64(rest), |id: u64| MessageView::MediaRequest(id)),
            4 => unit_or_malformed(rest, MessageView::ClientListRequest),
            5 => or_malformed(parse_byte(rest), |n: u8| MessageView::Register(n)),
            6 => if rest.len() >= 2 {
                or_malformed(
                    parse_bytes(after_two),
                    |t: Seq<u8>|
                        MessageView::SendMessage { from: rest[0], to: rest[1], message: t },
                )
            } else {
                Err(DecodeError::MalformedPayload)
            },
            7 => unit_or_malformed(rest, MessageView::ServerTypeRequest),
            8 => or_malformed(parse_ids(rest), |ids: Seq<u64>| MessageView::TextListResponse(ids)),
            9 => or_malformed(parse_bytes(rest), |t: Seq<u8>| MessageView::TextResponse(t)),
            10 => unit_or_malformed(rest, MessageView::NotFound),
            11 => or_malformed(
                parse_ids(rest),
                |ids: Seq<u64>| MessageView::MediaListResponse(ids),
            ),
            12 => or_malformed(parse_bytes(rest), |t: Seq<u8>| MessageView::MediaResponse(t)),
            13 => or_malformed(parse_bytes(rest), |t: Seq<u8>| MessageView::ClientListResponse(t)),
            14 => if rest.len() >= 1 {
                or_malformed(
                    parse_bytes(after_one),
                    |t: Seq<u8>| MessageView::MessageFrom { from: rest[0], message: t },
                )
            } else {
                Err(DecodeError::MalformedPayload)
            },
            15 => unit_or_malformed(rest, MessageView::MessageSent),
            16 => or_malformed(parse_byte(rest), |k: u8| MessageView::ServerTypeResponse(k)),
            17 => or_malformed(parse_byte(rest), |n: u8| MessageView::ErrorWrongClientId(n)),
            _ => Err(DecodeError::UnknownTag),
        }
    }
}

/// The view of an optional vector.
pub open spec fn opt_view<T>(o: Option<Vec<T>>) -> Option<Seq<T>> {
    match o {
        Some(v) => Some(v@),
        None => None,
    }
}

fn push_u64(out: &mut Vec<u8>, x: u64)
    ensures
        final(out)@ == old(out)@ + enc_u64(x),
{
    let mut b = u64_to_le_bytes(x);
    out.append(&mut b);
}

fn push_bytes(out: &mut Vec<u8>, mut b: Vec<u8>)
    ensures
        final(out)@ == old(out)@ + enc_bytes(b@),
{
    let ghost start = out@;
    let ghost bv = b@;
    push_u64(out, b.len() as u64);
    out.append(&mut b);
    assert(out@ =~= start + enc_bytes(bv));
}

fn push_ids(out: &mut Vec<u8>, ids: &Vec<u64>)
    ensures
        final(out)@ == old(out)@ + enc_ids(ids@),
{
    let ghost start = out@;
    push_u64(out, ids.len() as u64);
    let mut i: usize = 0;
    while i < ids.len()
        invariant
            i <= ids@.len(),
            out@ == start + enc_u64(ids@.len() as u64) + enc_u64_seq(ids@.subrange(0, i as int)),
        decreases ids@.len() - i,
    {
        push_u64(out, ids[i]);
        proof {
            let s = ids@.subrange(0, i + 1);
            assert(s.drop_last() =~= ids@.subrange(0, i as int));
        }
        i = i + 1;
    }
    assert(ids@.subrange(0, ids@.len() as int) =~= ids@);
    assert(out@ =~= start + enc_ids(ids@));
}

/// Encodes `message` as its tag byte followed by its payload.
pub fn encode(message: Message) -> (r: Vec<u8>)
    ensures
        r@ == encoding(message@),
{
    let ghost m = message@;
    let mut out: Vec<u8> = Vec::new();
    match message {
        Message::TextListRequest => {
            out.push(0);
        },
        Message::TextRequest(id) => {
            out.push(1);
            push_u64(&mut out, id);
        },
        Message::MediaListRequest => {
            out.push(2);
        },
        Message::MediaRequest(id) => {
            out.push(3);
            push_u64(&mut out, id);
        },
        Message::ClientListRequest => {
            out.push(4);
        },
        Message::Register(n) => {
            out.push(5);
            out.push(n);
        },
        Message::SendMessage { from, to, message } => {
            out.push(6);
            out.push(from);
            out.push(to);
            push_bytes(&mut out, message);
        },
        Message::ServerTypeRequest => {
            out.push(7);
        },
        Message::TextListResponse(ids) => {
            out.push(8);
            push_ids(&mut out, &ids);
        },
        Message::TextResponse(t) => {
            out.push(9);
            push_bytes(&mut out, t);
        },
        Message::NotFound => {
            out.push(10);
        },
        Message::MediaListResponse(ids) => {
            out.push(11);
            push_ids(&mut out, &ids);
        },
        Message::MediaResponse(b) => {
            out.push(12);
            push_bytes(&mut out, b);
        },
        Message::ClientListResponse(c) => {
            out.push(13);
            push_bytes(&mut out, c);
        },
        Message::MessageFrom { from, message } => {
            out.push(14);
            out.push(from);
            push_bytes(&mut out, message);
        },
        Message::MessageSent => {
            out.push(15);
        },
        Message::ServerTypeResponse(k) => {
            out.push(16);
            out.push(k);
        },
        Message::ErrorWrongClientId(n) => {
            out.push(17);
            out.push(n);
        },
    }
    assert(out@ =~= encoding(m));
    out
}

fn read_u64(b: &[u8], at: usize) -> (r: u64)
    requires
        at + 8 <= b@.len(),
    ensures
        r == dec_u64(b@, at as int),
{
    let n = b.len();
    let mut v: Vec<u8> = Vec::new();
    let mut i: usize = 0;
    while i < 8
        invariant
            n == b@.len(),
            at + 8 <= b@.len(),
            i <= 8,
            v@ == b@.subrange(at as int, at + i),
        decreases 8 - i,
    {
        v.push(b[at + i]);
        assert(v@ =~= b@.subrange(at as int, at + i + 1));
        i = i + 1;
    }
    u64_from_le_bytes(v.as_slice())
}

fn read_bytes(b: &[u8], at: usize) -> (r: Option<Vec<u8>>)
    requires
        at <= b@.len(),
    ensures
        opt_view(r) == parse_bytes(b@.subrange(at as int, b@.len() as int)),
{
    let ghost rest = b@.subrange(at as int, b@.len() as int);
    let n = b.len();
    if n - at < 8 {
        return None;
    }
    let len = read_u64(b, at);
    assert(dec_u64(rest, 0) == len) by {
        assert(rest.subrange(0, 8) =~= b@.subrange(at as int, at + 8));
    }
    if (n - at - 8) as u64 != len {
        return None;
    }
    let mut v: Vec<u8> = Vec::new();
    let mut i: usize = at + 8;
    while i < n
        invariant
            n == b@.len(),
            at + 8 <= i <= n,
            v@ == b@.subrange(at + 8, i as int),
        decreases n - i,
    {
        v.push(b[i]);
        assert(v@ =~= b@.subrange(at + 8, i + 1));
        i = i + 1;
    }
    assert(v@ =~= rest.subrange(8, rest.len() as int));
    Some(v)
}

fn read_ids(b: &[u8], at: usize) -> (r: Option<Vec<u64>>)
    requires
        at <= b@.len(),
    ensures
        opt_view(r) == parse_ids(b@.subrange(at as int, b@.len() as int)),
{
    let ghost rest = b@.subrange(at as int, b@.len() as int);
    let n = b.len();
    if n - at < 8 {
        return None;
    }
    let count = read_u64(b, at);
    assert(dec_u64(rest, 0) == count) by {
        assert(rest.subrange(0, 8) =~= b@.subrange(at as int, at + 8));
    }
    let room = n - at - 8;
    if room % 8 != 0 || (room / 8) as u64 != count {
        assert(room != 8 * count) by (nonlinear_arith)
            requires
                room % 8 != 0 || room / 8 != count,
                room >= 0,
        ;
        return None;
    }
    assert(room == 8 * count) by (nonlinear_arith)
        requires
            room % 8 == 0 && room / 8 == count,
    ;
    let mut v: Vec<u64> = Vec::new();
    let mut i: usize = 0;
    while i < room / 8
        invariant
            n == b@.len(),
            room == n - at - 8,
            room == 8 * count,
            i <= count,
            v@.len() == i,
            forall|j: int| 0 <= j < i ==> v@[j] == dec_u64(rest, 8 + 8 * j),
            rest == b@.subrange(at as int, n as int),
        decreases count - i,
    {
        let pos = at + 8 + 8 * i;
        let x = read_u64(b, pos);
        assert(dec_u64(rest, 8 + 8 * i) == x) by {
            assert(rest.subrange(8 + 8 * i, 8 + 8 * i + 8) =~= b@.subrange(pos as int, pos + 8));
        }
        v.push(x);
        i = i + 1;
    }
    assert(v@ =~= Seq::new(count as nat, |j: int| dec_u64(rest, 8 + 8 * j)));
    Some(v)
}

/// Decodes a buffer produced by [`encode`]: the first byte selects the
/// variant and the remaining bytes must be exactly its payload.
pub fn decode(bytes: &[u8]) -> (r: Result<Message, DecodeError>)
    ensures
        match r {
            Ok(m) => decode_result(bytes@) == Ok::<MessageView, DecodeError>(m@),
            Err(e) => decode_result(bytes@) == Err::<MessageView, DecodeError>(e),
        },
{
    let n = bytes.len();
    if n == 0 {
        return Err(DecodeError::MalformedPayload);
    }
    let ghost b = bytes@;
    let ghost rest = b.drop_first();
    proof {
        assert(rest =~= b.subrange(1, n as int));
        if n >= 2 {
            assert(rest.drop_first() =~= b.subrange(2, n as int));
        }
        if n >= 3 {
            assert(rest.subrange(2, rest.len() as int) =~= b.subrange(3, n as int));
        }
        if n == 9 {
            assert(rest.subrange(0, 8) =~= b.subrange(1, 9));
        }
    }
    let malformed = Err(DecodeError::MalformedPayload);
    match bytes[0] {
        0 => if n == 1 {
            Ok(Message::TextListRequest)
        } else {
            malformed
        },
        1 => if n == 9 {
            Ok(Message::TextRequest(read_u64(bytes, 1)))
        } else {
            malformed
        },
        2 => if n == 1 {
            Ok(Message::MediaListRequest)
        } else {
            malformed
        },
        3 => if n == 9 {
            Ok(Message::MediaRequest(read_u64(bytes, 1)))
        } else {
            malformed
        },
        4 => if n == 1 {
            Ok(Message::ClientListRequest)
        } else {
            malformed
        },
        5 => if n == 2 {
            Ok(Message::Register(bytes[1]))
        } else {
            malformed
        },
        6 => if n >= 3 {
            match read_bytes(bytes, 3) {
                Some(t) => Ok(Message::SendMessage { from: bytes[1], to: bytes[2], message: t }),
                None => malformed,
            }
        } else {
            malformed
        },
        7 => if n == 1 {
            Ok(Message::ServerTypeRequest)
        } else {
            malformed
        },
        8 => match read_ids(bytes, 1) {
            Some(ids) => Ok(Message::TextListResponse(ids)),
            None => malformed,
        },
        9 => match read_bytes(bytes, 1) {
            Some(t) => Ok(Message::TextResponse(t)),
            None => malformed,
        },
        10 => if n == 1 {
            Ok(Message::NotFound)
        } else {
            malformed
        },
        11 => match read_ids(bytes, 1) {
            Some(ids) => Ok(Message::MediaListResponse(ids)),
            None => malformed,
        },
        12 => match read_bytes(bytes, 1) {
            Some(t) => Ok(Message::MediaResponse(t)),
            None => malformed,
        },
        13 => match read_bytes(bytes, 1) {
            Some(t) => Ok(Message::ClientListResponse(t)),
            None => malformed,
        },
        14 => if n >= 2 {
            match read_bytes(bytes, 2) {
                Some(t) => Ok(Message::MessageFrom { from: bytes[1], message: t }),
                None => malformed,
            }
        } else {
            malformed
        },
        15 => if n == 1 {
            Ok(Message::MessageSent)
        } else {
            malformed
        },
        16 => if n == 2 {
            Ok(Message::ServerTypeResponse(bytes[1]))
        } else {
            malformed
        },
        17 => if n == 2 {
            Ok(Message::ErrorWrongClientId(bytes[1]))
        } else {
            malformed
        },
        _ => Err(DecodeError::UnknownTag),
    }
}

impl MessageView {
    /// Every sequence is short enough for its length to fit the eight-byte
    /// prefix; true of the view of every [`Message`] on this machine.
    pub open spec fn wf(self) -> bool {
        match self {
            MessageView::SendMessage { message, .. } => message.len() <= u64::MAX,
            MessageView::TextListResponse(ids) => ids.len() <= u64::MAX,
            MessageView::TextResponse(t) => t.len() <= u64::MAX,
            MessageView::MediaListResponse(ids) => ids.len() <= u64::MAX,
            MessageView::MediaResponse(b) => b.len() <= u64::MAX,
            MessageView::ClientListResponse(c) => c.len() <= u64::MAX,
            MessageView::MessageFrom { message, .. } => message.len() <= u64::MAX,
            _ => true,
        }
    }
}

proof fn lemma_enc_u64_seq(xs: Seq<u64>)
    ensures
        enc_u64_seq(xs).len() == 8 * xs.len(),
        forall|i: int|
            0 <= i < xs.len() ==> #[trigger] enc_u64_seq(xs).subrange(8 * i, 8 * i + 8) == enc_u64(
                xs[i],
            ),
    decreases xs.len(),
{
    lemma_auto_spec_u64_to_from_le_bytes();
    if xs.len() > 0 {
        let init = xs.drop_last();
        lemma_enc_u64_seq(init);
        let a = enc_u64_seq(init);
        let e = enc_u64(xs.last());
        assert(enc_u64_seq(xs) == a + e);
        assert forall|i: int| 0 <= i < xs.len() implies #[trigger] enc_u64_seq(xs).subrange(
            8 * i,
            8 * i + 8,
        ) == enc_u64(xs[i]) by {
            if i < xs.len() - 1 {
                assert((a + e).subrange(8 * i, 8 * i + 8) =~= a.subrange(8 * i, 8 * i + 8));
                assert(init[i] == xs[i]);
            } else {
                assert((a + e).subrange(8 * i, 8 * i + 8) =~= e);
            }
        }
    }
}

proof fn lemma_parse_u64(x: u64)
    ensures
        parse_u64(enc_u64(x)) == Some(x),
{
    lemma_auto_spec_u64_to_from_le_bytes();
    assert(enc_u64(x).subrange(0, 8) =~= enc_u64(x));
}

proof fn lemma_parse_bytes(t: Seq<u8>)
    requires
        t.len() <= u64::MAX,
    ensures
        parse_bytes(enc_bytes(t)) == Some(t),
{
    lemma_auto_spec_u64_to_from_le_bytes();
    let b = enc_bytes(t);
    assert(b.subrange(0, 8) =~= enc_u64(t.len() as u64));
    assert(b.subrange(8, b.len() as int) =~= t);
}

proof fn lemma_parse_ids(xs: Seq<u64>)
    requires
        xs.len() <= u64::MAX,
    ensures
        parse_ids(enc_ids(xs)) == Some(xs),
{
    lemma_auto_spec_u64_to_from_le_bytes();
    lemma_enc_u64_seq(xs);
    let b = enc_ids(xs);
    let body = enc_u64_seq(xs);
    assert(b.subrange(0, 8) =~= enc_u64(xs.len() as u64));
    assert(dec_u64(b, 0) == xs.len());
    let parsed = Seq::new(dec_u64(b, 0) as nat, |i: int| dec_u64(b, 8 + 8 * i));
    assert forall|i: int| 0 <= i < xs.len() implies parsed[i] == xs[i] by {
        assert(b.subrange(8 + 8 * i, 8 + 8 * i + 8) =~= body.subrange(8 * i, 8 * i + 8));
        assert(body.subrange(8 * i, 8 * i + 8) == enc_u64(xs[i]));
    }
    assert(parsed =~= xs);
}

/// Decoding the encoding of a message gives the message back.
pub proof fn lemma_decode_encode(m: MessageView)
    requires
        m.wf(),
    ensures
        decode_result(encoding(m)) == Ok::<MessageView, DecodeError>(m),
{
    let b = encoding(m);
    let p = payload_of(m);
    assert(b.drop_first() =~= p);
    match m {
        MessageView::TextRequest(id) => lemma_parse_u64(id),
        MessageView::MediaRequest(id) => lemma_parse_u64(id),
        MessageView::SendMessage { from, to, message } => {
            lemma_parse_bytes(message);
            assert(p.subrange(2, p.len() as int) =~= enc_bytes(message));
        },
        MessageView::TextListResponse(ids) => lemma_parse_ids(ids),
        MessageView::TextResponse(t) => lemma_parse_bytes(t),
        MessageView::MediaListResponse(ids) => lemma_parse_ids(ids),
        MessageView::MediaResponse(t) => lemma_parse_bytes(t),
        MessageView::ClientListResponse(t) => lemma_parse_bytes(t),
        MessageView::MessageFrom { from, message } => {
            lemma_parse_bytes(message);
            assert(p.drop_first() =~= enc_bytes(message));
        },
        _ => {},
    }
}

/// A buffer that starts with a byte above the highest tag is refused as an
/// unknown tag, whatever follows.
pub proof fn lemma_decode_unknown_tag(b: Seq<u8>)
    requires
        b.len() > 0,
        b[0] > MAX_TAG,
    ensures
        decode_result(b) == Err::<MessageView, DecodeError>(DecodeError::UnknownTag),
{
}

proof fn lemma_parse_u64_inv(r: Seq<u8>)
    ensures
        parse_u64(r) is Some ==> enc_u64(parse_u64(r)->Some_0) == r,
{
    lemma_auto_spec_u64_to_from_le_bytes();
    if r.len() == 8 {
        assert(r.subrange(0, 8) =~= r);
    }
}

proof fn lemma_parse_bytes_inv(r: Seq<u8>)
    ensures
        parse_bytes(r) is Some ==> enc_bytes(parse_bytes(r)->Some_0) == r,
{
    lemma_auto_spec_u64_to_from_le_bytes();
    if parse_bytes(r) is Some {
        let t = r.subrange(8, r.len() as int);
        assert(enc_u64(t.len() as u64) == r.subrange(0, 8));
        assert(enc_bytes(t) =~= r);
    }
}

proof fn lemma_parse_ids_inv(r: Seq<u8>)
    ensures
        parse_ids(r) is Some ==> enc_ids(parse_ids(r)->Some_0) == r,
{
    lemma_auto_spec_u64_to_from_le_bytes();
    if parse_ids(r) is Some {
        let xs = parse_ids(r)->Some_0;
        let c = dec_u64(r, 0);
        lemma_enc_u64_seq(xs);
        let body = enc_u64_seq(xs);
        assert(enc_u64(xs.len() as u64) == r.subrange(0, 8));
        assert forall|q: int| 0 <= q < body.len() implies body[q] == r[8 + q] by {
            let k = q / 8;
            let o = q % 8;
            assert(q == 8 * k + o && 0 <= o < 8 && 0 <= k < xs.len()) by (nonlinear_arith)
                requires
                    k == q / 8,
                    o == q % 8,
                    0 <= q < 8 * xs.len(),
            ;
            assert(body.subrange(8 * k, 8 * k + 8) == enc_u64(xs[k]));
            assert(enc_u64(xs[k]) == r.subrange(8 + 8 * k, 8 + 8 * k + 8));
            assert(body.subrange(8 * k, 8 * k + 8)[o] == body[q]);
        }
        assert(enc_ids(xs) =~= r);
    }
}

/// A buffer that decodes is exactly the encoding of the message it decodes
/// to: no two buffers decode to the same message.
pub proof fn lemma_encode_decode(b: Seq<u8>)
    ensures
        decode_result(b) is Ok ==> encoding(decode_result(b)->Ok_0) == b,
{
    if b.len() > 0 {
        let rest = b.drop_first();
        assert(b =~= seq![b[0]] + rest);
        lemma_parse_u64_inv(rest);
        lemma_parse_bytes_inv(rest);
        lemma_parse_ids_inv(rest);
        if rest.len() == 1 {
            assert(rest =~= seq![rest[0]]);
        }
        if rest.len() >= 1 {
            lemma_parse_bytes_inv(rest.drop_first());
            assert(rest =~= seq![rest[0]] + rest.drop_first());
        }
        if rest.len() >= 2 {
            lemma_parse_bytes_inv(rest.subrange(2, rest.len() as int));
            assert(rest =~= seq![rest[0], rest[1]] + rest.subrange(2, rest.len() as int));
        }
        if decode_result(b) is Ok {
            let m = decode_result(b)->Ok_0;
            assert(tag_of(m) == b[0]);
            assert(payload_of(m) =~= rest);
        }
    }
}

} // verus!
