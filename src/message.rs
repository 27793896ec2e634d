use vstd::prelude::*;
use crate::layout::{Block, DataBlock, BLOCK_SIZE_BYTES};
use crate::session::P2PError;

verus! {

/// The largest body a `Piece` message may have: tag, index, offset and one block.
pub const MAX_PIECE_BODY: usize = 16393;

/// A peer wire protocol message.
#[derive(Clone, Debug, PartialEq, Eq)]
pub enum Message {
    KeepAlive,
    Choke,
    Unchoke,
    Interested,
    NotInterested,
    Have(usize),
    Bitfield(Vec<u8>),
    Request(Block),
    Piece(DataBlock),
    Cancel(Block),
    Port(usize),
}

/// What a message holds, with byte vectors seen as sequences.
pub enum MessageView {
    KeepAlive,
    Choke,
    Unchoke,
    Interested,
    NotInterested,
    Have(usize),
    Bitfield(Seq<u8>),
    Request(Block),
    Piece(usize, usize, Seq<u8>),
    Cancel(Block),
    Port(usize),
}

impl View for Message {
    type V = MessageView;

    open spec fn view(&self) -> MessageView {
        match self {
            Message::KeepAlive => MessageView::KeepAlive,
            Message::Choke => MessageView::Choke,
            Message::Unchoke => MessageView::Unchoke,
            Message::Interested => MessageView::Interested,
            Message::NotInterested => MessageView::NotInterested,
            Message::Have(p) => MessageView::Have(*p),
            Message::Bitfield(b) => MessageView::Bitfield(b@),
            Message::Request(b) => MessageView::Request(*b),
            Message::Piece(d) => MessageView::Piece(d.piece_idx, d.offset, d.data@),
            Message::Cancel(b) => MessageView::Cancel(*b),
            Message::Port(p) => MessageView::Port(*p),
        }
    }
}

/// Four bytes, most significant first, of `n` modulo 2^32.
pub open spec fn be4(n: int) -> Seq<u8> {
    seq![
        ((n / 0x1000000) % 0x100) as u8,
        ((n / 0x10000) % 0x100) as u8,
        ((n / 0x100) % 0x100) as u8,
        (n % 0x100) as u8,
    ]
}

/// The number that four bytes, most significant first, encode.
pub open spec fn be_value(s: Seq<u8>) -> int {
    s[0] as int * 0x1000000 + s[1] as int * 0x10000 + s[2] as int * 0x100 + s[3] as int
}

pub open spec fn be_at(b: Seq<u8>, start: int) -> usize {
    be_value(b.subrange(start, start + 4)) as usize
}

pub open spec fn block_fields(b: Block) -> Seq<u8> {
    be4(b.piece_idx as int) + be4(b.offset as int) + be4(b.length as int)
}

pub open spec fn block_at(b: Seq<u8>) -> Block {
    Block { piece_idx: be_at(b, 1), offset: be_at(b, 5), length: be_at(b, 9) }
}

/// The body of a message's frame: tag and payload.
pub open spec fn encode_body(m: MessageView) -> Seq<u8> {
    match m {
        MessageView::KeepAlive => Seq::empty(),
        MessageView::Choke => seq![0u8],
        MessageView::Unchoke => seq![1u8],
        MessageView::Interested => seq![2u8],
        MessageView::NotInterested => seq![3u8],
        MessageView::Have(p) => seq![4u8] + be4(p as int),
        MessageView::Bitfield(bits) => seq![5u8] + bits,
        MessageView::Request(b) => seq![6u8] + block_fields(b),
        MessageView::Piece(p, o, data) => seq![7u8] + be4(p as int) + be4(o as int) + data,
        MessageView::Cancel(b) => seq![8u8] + block_fields(b),
        MessageView::Port(p) => seq![9u8, ((p / 0x100) % 0x100) as u8, (p % 0x100) as u8],
    }
}

/// A whole frame: the body's length in four bytes, then the body.
pub open spec fn encode_frame(m: MessageView) -> Seq<u8> {
    be4(encode_body(m).len() as int) + encode_body(m)
}

/// Why a frame body does not decode.
#[derive(Clone, Copy, Debug, PartialEq, Eq, Structural)]
pub enum DecodeError {
    /// The tag is none of 0 to 9.
    UnknownMessage,
    /// A Request or Cancel body over 13 bytes, or a Piece body over one block.
    OversizedMessage,
    /// A body too short, or of the wrong length, for its tag.
    Malformed,
}

/// Which error a body that does not decode gives.
pub open spec fn decode_error(b: Seq<u8>) -> DecodeError {
    if b[0] > 9 {
        DecodeError::UnknownMessage
    } else if ((b[0] == 6 || b[0] == 8) && b.len() > 13) || (b[0] == 7 && b.len() > MAX_PIECE_BODY) {
        DecodeError::OversizedMessage
    } else {
        DecodeError::Malformed
    }
}

/// The longest frame body a peer may send for a torrent of `n` pieces: a
/// Piece body, or a Bitfield message for `n` pieces, whichever is longer.
pub open spec fn max_body(n: int) -> int {
    let bitfield = 1 + n / 8 + if n % 8 == 0 { 0int } else { 1int };
    if bitfield > MAX_PIECE_BODY { bitfield } else { MAX_PIECE_BODY as int }
}

/// The message that a frame body decodes to; `None` for an unknown tag, or a
/// body too long or too short for its tag.
pub open spec fn decode_body(b: Seq<u8>) -> Option<MessageView> {
    if b.len() == 0 {
        Some(MessageView::KeepAlive)
    } else if b[0] <= 3 {
        if b.len() != 1 {
            None
        } else if b[0] == 0 {
            Some(MessageView::Choke)
        } else if b[0] == 1 {
            Some(MessageView::Unchoke)
        } else if b[0] == 2 {
            Some(MessageView::Interested)
        } else {
            Some(MessageView::NotInterested)
        }
    } else if b[0] == 4 {
        if b.len() == 5 { Some(MessageView::Have(be_at(b, 1))) } else { None }
    } else if b[0] == 5 {
        Some(MessageView::Bitfield(b.subrange(1, b.len() as int)))
    } else if b[0] == 6 {
        if b.len() == 13 { Some(MessageView::Request(block_at(b))) } else { None }
    } else if b[0] == 7 {
        if 9 <= b.len() <= MAX_PIECE_BODY {
            Some(MessageView::Piece(be_at(b, 1), be_at(b, 5), b.subrange(9, b.len() as int)))
        } else {
            None
        }
    } else if b[0] == 8 {
        if b.len() == 13 { Some(MessageView::Cancel(block_at(b))) } else { None }
    } else if b[0] == 9 {
        if b.len() == 3 {
            Some(MessageView::Port((b[1] as int * 0x100 + b[2] as int) as usize))
        } else {
            None
        }
    } else {
        None
    }
}

/// The message's numbers fit the wire's four bytes (two for a port), and a
/// piece's data fits a block.
pub open spec fn fits_wire(m: MessageView) -> bool {
    match m {
        MessageView::Have(p) => p < 0x1_0000_0000,
        MessageView::Request(b) => b.piece_idx < 0x1_0000_0000 && b.offset < 0x1_0000_0000
            && b.length < 0x1_0000_0000,
        MessageView::Piece(p, o, data) => p < 0x1_0000_0000 && o < 0x1_0000_0000 && data.len()
            <= BLOCK_SIZE_BYTES,
        MessageView::Cancel(b) => b.piece_idx < 0x1_0000_0000 && b.offset < 0x1_0000_0000
            && b.length < 0x1_0000_0000,
        MessageView::Port(p) => p < 0x1_0000,
        _ => true,
    }
}

proof fn lemma_be4_bv(x: u32)
    by (bit_vector)
    ensures
        ((x / 0x1000000) % 0x100) * 0x1000000 + ((x / 0x10000) % 0x100) * 0x10000 + ((x / 0x100)
            % 0x100) * 0x100 + x % 0x100 == x,
{
}

/// Four bytes read back give the number written, below 2^32.
pub proof fn lemma_be4_round_trip(n: int)
    requires
        0 <= n < 0x1_0000_0000,
    ensures
        be_value(be4(n)) == n,
{
    lemma_be4_bv(n as u32);
}

proof fn lemma_be_at_be4(prefix: Seq<u8>, n: int, rest: Seq<u8>)
    requires
        0 <= n < 0x1_0000_0000,
    ensures
        be_at(prefix + be4(n) + rest, prefix.len() as int) == n,
{
    let s = prefix + be4(n) + rest;
    assert(s.subrange(prefix.len() as int, prefix.len() + 4int) =~= be4(n));
    lemma_be4_round_trip(n);
}

/// Decoding the body of an encoded message gives the message back.
pub proof fn lemma_wire_round_trip(m: MessageView)
    requires
        fits_wire(m),
    ensures
        decode_body(encode_body(m)) == Some(m),
        encode_frame(m).subrange(4, encode_frame(m).len() as int) == encode_body(m),
{
    let b = encode_body(m);
    assert(encode_frame(m).subrange(4, encode_frame(m).len() as int) =~= b);
    match m {
        MessageView::Have(p) => {
            lemma_be_at_be4(seq![4u8], p as int, Seq::empty());
            assert(seq![4u8] + be4(p as int) + Seq::empty() =~= b);
        },
        MessageView::Port(p) => {
            assert((p / 0x100) % 0x100 * 0x100 + p % 0x100 == p);
        },
        MessageView::Bitfield(bits) => {
            assert(b.subrange(1, b.len() as int) =~= bits);
        },
        MessageView::Request(k) => {
            lemma_block_fields(6u8, k);
        },
        MessageView::Cancel(k) => {
            lemma_block_fields(8u8, k);
        },
        MessageView::Piece(p, o, data) => {
            let t = seq![7u8];
            lemma_be_at_be4(t, p as int, be4(o as int) + data);
            assert(t + be4(p as int) + (be4(o as int) + data) =~= b);
            lemma_be_at_be4(t + be4(p as int), o as int, data);
            assert(b.subrange(9, b.len() as int) =~= data);
        },
        _ => {},
    }
}

proof fn lemma_block_fields(tag: u8, k: Block)
    requires
        k.piece_idx < 0x1_0000_0000,
        k.offset < 0x1_0000_0000,
        k.length < 0x1_0000_0000,
    ensures
        block_at(seq![tag] + block_fields(k)) == k,
        (seq![tag] + block_fields(k)).len() == 13,
        (seq![tag] + block_fields(k))[0] == tag,
{
    let t = seq![tag];
    let (a, o, l) = (be4(k.piece_idx as int), be4(k.offset as int), be4(k.length as int));
    let b = t + block_fields(k);
    assert(b =~= t + a + (o + l));
    lemma_be_at_be4(t, k.piece_idx as int, o + l);
    assert(b =~= (t + a) + o + l);
    lemma_be_at_be4(t + a, k.offset as int, l);
    assert(b =~= (t + a + o) + l + Seq::empty());
    lemma_be_at_be4(t + a + o, k.length as int, Seq::empty());
}

impl Message {
    fn usize_to_four_be_bytes(number: usize) -> (r: Vec<u8>)
        ensures
            r@ == be4(number as int),
    {
        let mut result: Vec<u8> = Vec::with_capacity(4);
        result.push(((number / 0x1000000) % 0x100) as u8);
        result.push(((number / 0x10000) % 0x100) as u8);
        result.push(((number / 0x100) % 0x100) as u8);
        result.push((number % 0x100) as u8);
        assert(result@ =~= be4(number as int));
        result
    }

    fn usize_from_be_bytes(bytes: &Vec<u8>, start: usize) -> (r: usize)
        requires
            start + 4 <= bytes@.len(),
        ensures
            r == be_at(bytes@, start as int),
    {
        let _n = bytes.len();
        let v: u64 = bytes[start] as u64 * 0x1000000 + bytes[start + 1] as u64 * 0x10000
            + bytes[start + 2] as u64 * 0x100 + bytes[start + 3] as u64;
        assert(bytes@.subrange(start as int, start + 4)[0] == bytes@[start as int]);
        assert(bytes@.subrange(start as int, start + 4)[1] == bytes@[start + 1]);
        assert(bytes@.subrange(start as int, start + 4)[2] == bytes@[start + 2]);
        assert(bytes@.subrange(start as int, start + 4)[3] == bytes@[start + 3]);
        v as usize
    }

    fn block_from_bytes(bytes: &Vec<u8>) -> (r: Block)
        requires
            bytes@.len() == 13,
        ensures
            r == block_at(bytes@),
    {
        let piece_idx = Self::usize_from_be_bytes(bytes, 1);
        let offset = Self::usize_from_be_bytes(bytes, 5);
        let length = Self::usize_from_be_bytes(bytes, 9);
        Block::new(piece_idx, offset, length)
    }

    /// Decodes a frame body, saying why when it does not decode.
    pub fn decode(bytes: Vec<u8>) -> (r: Result<Self, DecodeError>)
        ensures
            match r {
                Ok(m) => decode_body(bytes@) == Some(m@),
                Err(e) => decode_body(bytes@) is None && e == decode_error(bytes@),
            },
    {
        let n = bytes.len();
        let tag: u8 = if n > 0 { bytes[0] } else { 0 };
        let ghost b = bytes@;
        match Self::deserialize(bytes) {
            Some(m) => Ok(m),
            None => {
                if tag > 9 {
                    Err(DecodeError::UnknownMessage)
                } else if ((tag == 6 || tag == 8) && n > 13) || (tag == 7 && n > MAX_PIECE_BODY) {
                    Err(DecodeError::OversizedMessage)
                } else {
                    Err(DecodeError::Malformed)
                }
            },
        }
    }

    /// The longest frame body to accept from a peer of a torrent of
    /// `num_of_pieces` pieces.
    pub fn max_body_length(num_of_pieces: usize) -> (r: usize)
        ensures
            r == max_body(num_of_pieces as int),
    {
        let bitfield: usize = 1 + num_of_pieces / 8 + if num_of_pieces % 8 == 0 { 0 } else { 1 };
        if bitfield > MAX_PIECE_BODY {
            bitfield
        } else {
            MAX_PIECE_BODY
        }
    }

    /// Decodes a frame body (the bytes after the length prefix).
    pub fn deserialize(bytes: Vec<u8>) -> (r: Option<Self>)
        ensures
            match r {
                Some(m) => decode_body(bytes@) == Some(m@),
                None => decode_body(bytes@) is None,
            },
    {
        let n = bytes.len();
        if n == 0 {
            return Some(Message::KeepAlive);
        }
        let tag = bytes[0];
        if tag <= 3 {
            if n != 1 {
                None
            } else if tag == 0 {
                Some(Message::Choke)
            } else if tag == 1 {
                Some(Message::Unchoke)
            } else if tag == 2 {
                Some(Message::Interested)
            } else {
                Some(Message::NotInterested)
            }
        } else if tag == 4 {
            if n == 5 {
                Some(Message::Have(Self::usize_from_be_bytes(&bytes, 1)))
            } else {
                None
            }
        } else if tag == 5 {
            let mut bytes = bytes;
            let rest = bytes.split_off(1);
            Some(Message::Bitfield(rest))
        } else if tag == 6 {
            if n == 13 {
                Some(Message::Request(Self::block_from_bytes(&bytes)))
            } else {
                None
            }
        } else if tag == 7 {
            if 9 <= n && n <= MAX_PIECE_BODY {
                let index = Self::usize_from_be_bytes(&bytes, 1);
                let begin = Self::usize_from_be_bytes(&bytes, 5);
                let mut bytes = bytes;
                let data = bytes.split_off(9);
                Some(Message::Piece(DataBlock::new(index, begin, data)))
            } else {
                None
            }
        } else if tag == 8 {
            if n == 13 {
                Some(Message::Cancel(Self::block_from_bytes(&bytes)))
            } else {
                None
            }
        } else if tag == 9 {
            if n == 3 {
                Some(Message::Port(bytes[1] as usize * 0x100 + bytes[2] as usize))
            } else {
                None
            }
        } else {
            None
        }
    }

    fn push_block_fields(bytes: &mut Vec<u8>, block: &Block)
        ensures
            final(bytes)@ == old(bytes)@ + block_fields(*block),
    {
        let mut a = Self::usize_to_four_be_bytes(block.piece_idx);
        let mut o = Self::usize_to_four_be_bytes(block.offset);
        let mut l = Self::usize_to_four_be_bytes(block.length);
        bytes.append(&mut a);
        bytes.append(&mut o);
        bytes.append(&mut l);
        assert(final(bytes)@ =~= old(bytes)@ + block_fields(*block));
    }

    /// Encodes the message as a whole frame, length prefix included.
    pub fn serialize(&self) -> (r: Vec<u8>)
        ensures
            r@ == encode_frame(self@),
    {
        let mut bytes: Vec<u8> = Vec::new();
        match self {
            Message::KeepAlive => {},
            Message::Choke => bytes.push(0),
            Message::Unchoke => bytes.push(1),
            Message::Interested => bytes.push(2),
            Message::NotInterested => bytes.push(3),
            Message::Have(index) => {
                bytes.push(4);
                let mut v = Self::usize_to_four_be_bytes(*index);
                bytes.append(&mut v);
            },
            Message::Bitfield(bitfield) => {
                bytes.push(5);
                bytes.extend_from_slice(bitfield.as_slice());
            },
            Message::Request(block) => {
                bytes.push(6);
                Self::push_block_fields(&mut bytes, block);
            },
            Message::Piece(data_block) => {
                bytes.push(7);
                let mut p = Self::usize_to_four_be_bytes(data_block.piece_idx);
                let mut o = Self::usize_to_four_be_bytes(data_block.offset);
                bytes.append(&mut p);
                bytes.append(&mut o);
                bytes.extend_from_slice(data_block.data.as_slice());
            },
            Message::Cancel(block) => {
                bytes.push(8);
                Self::push_block_fields(&mut bytes, block);
            },
            Message::Port(port) => {
                bytes.push(9);
                bytes.push(((*port / 0x100) % 0x100) as u8);
                bytes.push((*port % 0x100) as u8);
            },
        }
        assert(bytes@ =~= encode_body(self@));
        let mut message = Self::usize_to_four_be_bytes(bytes.len());
        message.append(&mut bytes);
        message
    }

    pub fn is_interested(&self) -> (r: bool)
        ensures
            r == (self is Interested),
    {
        match self {
            Message::Interested => true,
            _ => false,
        }
    }

    pub fn is_not_interested(&self) -> (r: bool)
        ensures
            r == (self is NotInterested),
    {
        match self {
            Message::NotInterested => true,
            _ => false,
        }
    }

    pub fn is_request(&self) -> (r: bool)
        ensures
            r == (self is Request),
    {
        match self {
            Message::Request(_) => true,
            _ => false,
        }
    }

    pub fn is_piece(&self) -> (r: bool)
        ensures
            r == (self is Piece),
    {
        match self {
            Message::Piece(_) => true,
            _ => false,
        }
    }
}

/// "BitTorrent protocol" in ASCII.
pub open spec fn protocol_bytes() -> Seq<u8> {
    seq![
        0x42u8, 0x69, 0x74, 0x54, 0x6f, 0x72, 0x72, 0x65, 0x6e, 0x74, 0x20, 0x70, 0x72, 0x6f, 0x74,
        0x6f, 0x63, 0x6f, 0x6c,
    ]
}

/// The handshake: the protocol name with its length, eight zero bytes, the
/// info hash and the peer id.
pub open spec fn handshake_bytes(info_hash: Seq<u8>, peer_id: Seq<u8>) -> Seq<u8> {
    seq![19u8] + protocol_bytes() + Seq::new(8, |i: int| 0u8) + info_hash + peer_id
}

/// The length byte and the protocol name that open every handshake.
pub open spec fn protocol_header() -> Seq<u8> {
    seq![19u8] + protocol_bytes()
}

/// A handshake is accepted: 68 bytes, the protocol header, and the
/// torrent's info hash after eight reserved bytes of any value.
pub open spec fn handshake_accepts(b: Seq<u8>, info_hash: Seq<u8>) -> bool {
    &&& b.len() == HANDSHAKE_LENGTH
    &&& b.subrange(0, 20) == protocol_header()
    &&& b.subrange(28, 48) == info_hash
}

/// A handshake built for an info hash passes the check for that hash,
/// whatever the 20-byte peer id.
pub proof fn lemma_own_handshake_accepted(info_hash: Seq<u8>, peer_id: Seq<u8>)
    requires
        info_hash.len() == 20,
        peer_id.len() == 20,
    ensures
        handshake_accepts(handshake_bytes(info_hash, peer_id), info_hash),
{
    let b = handshake_bytes(info_hash, peer_id);
    assert(b.subrange(0, 20) =~= protocol_header());
    assert(b.subrange(28, 48) =~= info_hash);
}

/// The length of a handshake.
pub const HANDSHAKE_LENGTH: usize = 68;

/// The opening message of a peer connection.
#[derive(Clone, Debug, PartialEq, Eq)]
pub struct Handshake {
    pub content: Vec<u8>,
}

impl Handshake {
    pub fn new(info_hash: &Vec<u8>, client_id: &Vec<u8>) -> (r: Self)
        ensures
            r.content@ == handshake_bytes(info_hash@, client_id@),
    {
        let mut content: Vec<u8> = vec![19u8, 0x42, 0x69, 0x74, 0x54, 0x6f, 0x72, 0x72, 0x65, 0x6e,
            0x74, 0x20, 0x70, 0x72, 0x6f, 0x74, 0x6f, 0x63, 0x6f, 0x6c, 0, 0, 0, 0, 0, 0, 0, 0];
        assert(content@ =~= seq![19u8] + protocol_bytes() + Seq::new(8, |i: int| 0u8));
        content.extend_from_slice(info_hash.as_slice());
        content.extend_from_slice(client_id.as_slice());
        assert(content@ =~= handshake_bytes(info_hash@, client_id@));
        Handshake { content }
    }

    /// Checks a peer's handshake: its length, the protocol name with its
    /// length byte, and the info hash. The reserved bytes and the peer id may
    /// be anything.
    pub fn check(bytes: &Vec<u8>, info_hash: &Vec<u8>) -> (r: Result<(), P2PError>)
        requires
            info_hash@.len() == 20,
        ensures
            r is Ok <==> handshake_accepts(bytes@, info_hash@),
            r == Err::<(), P2PError>(P2PError::ProtocolMismatch) <==> bytes@.len() == HANDSHAKE_LENGTH
                && bytes@.subrange(0, 20) == protocol_header() && bytes@.subrange(28, 48) != info_hash@,
            r is Err ==> r == Err::<(), P2PError>(P2PError::ProtocolMismatch) || r == Err::<(), P2PError>(
                P2PError::HandshakeFailed,
            ),
    {
        if bytes.len() != HANDSHAKE_LENGTH {
            return Err(P2PError::HandshakeFailed);
        }
        let header: Vec<u8> = vec![19u8, 0x42, 0x69, 0x74, 0x54, 0x6f, 0x72, 0x72, 0x65, 0x6e,
            0x74, 0x20, 0x70, 0x72, 0x6f, 0x74, 0x6f, 0x63, 0x6f, 0x6c];
        assert(header@ =~= protocol_header());
        let mut i: usize = 0;
        while i < 20
            invariant
                bytes@.len() == HANDSHAKE_LENGTH,
                header@ == protocol_header(),
                i <= 20,
                forall|k: int| 0 <= k < i ==> bytes@[k] == header@[k],
            decreases 20 - i,
        {
            if bytes[i] != header[i] {
                assert(bytes@.subrange(0, 20)[i as int] != protocol_header()[i as int]);
                return Err(P2PError::HandshakeFailed);
            }
            i = i + 1;
        }
        assert(bytes@.subrange(0, 20) =~= protocol_header());
        let mut j: usize = 0;
        while j < 20
            invariant
                bytes@.len() == HANDSHAKE_LENGTH,
                info_hash@.len() == 20,
                bytes@.subrange(0, 20) == protocol_header(),
                j <= 20,
                forall|k: int| 0 <= k < j ==> bytes@[28 + k] == info_hash@[k],
            decreases 20 - j,
        {
            if bytes[28 + j] != info_hash[j] {
                assert(bytes@.subrange(28, 48)[j as int] != info_hash@[j as int]);
                return Err(P2PError::ProtocolMismatch);
            }
            j = j + 1;
        }
        assert(bytes@.subrange(28, 48) =~= info_hash@);
        Ok(())
    }
}

/// The length a frame's four-byte prefix announces.
pub fn frame_body_length(prefix: &Vec<u8>) -> (r: usize)
    requires
        prefix@.len() == 4,
    ensures
        r == be_at(seq![0u8] + prefix@, 1),
{
    let mut padded: Vec<u8> = vec![0u8];
    padded.extend_from_slice(prefix.as_slice());
    assert(padded@ =~= seq![0u8] + prefix@);
    Message::usize_from_be_bytes(&padded, 1)
}

} // verus!
