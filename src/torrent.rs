use vstd::prelude::*;
use crate::bencode::{
    dict_lookup, dict_value, info_dict_span, info_span, string_at, string_value, uint_at, uint_value,
};
use vstd::utf8::{decode_utf8, valid_utf8};
use crate::digest::{sha1_digest, sha1_of};
use crate::layout::{TorrentLayout, BLOCK_SIZE_BYTES};

verus! {

/// The length of one piece digest.
pub const PIECE_HASH_LENGTH: usize = 20;

/// The info dictionary of a single-file torrent, as the logic reads it.
#[derive(Clone, Debug)]
pub struct Info {
    /// Total length in bytes; absent for multi-file torrents.
    pub length: Option<u64>,
    pub name: String,
    /// Concatenated 20-byte piece digests.
    pub pieces: Vec<u8>,
    pub piece_length: u64,
}

/// A parsed metadata descriptor.
#[derive(Clone, Debug)]
pub struct Torrent {
    pub info: Info,
    pub announce: String,
    pub info_hash: Vec<u8>,
    pub piece_hashes: Vec<Vec<u8>>,
}

/// A peer address from a tracker: IPv4 address as a big-endian number, and port.
#[derive(Clone, Copy, Debug, PartialEq, Eq, Structural)]
pub struct Peer {
    pub ip: u32,
    pub port: u16,
}

/// The peer that six bytes of a compact peer list starting at `at` describe.
pub open spec fn peer_at(b: Seq<u8>, at: int) -> Peer {
    Peer {
        ip: (b[at] as int * 0x1000000 + b[at + 1] as int * 0x10000 + b[at + 2] as int * 0x100 + b[at
            + 3] as int) as u32,
        port: (b[at + 4] as int * 0x100 + b[at + 5] as int) as u16,
    }
}

/// Splits the concatenated piece digests; `None` unless the length is a
/// multiple of the digest length.
pub fn get_pieces_hashes(pieces: &Vec<u8>) -> (r: Option<Vec<Vec<u8>>>)
    ensures
        r is Some <==> pieces@.len() % 20 == 0,
        r matches Some(hs) ==> hs@.len() == pieces@.len() / 20 && forall|k: int|
            0 <= k < hs@.len() ==> (#[trigger] hs@[k])@ == pieces@.subrange(20 * k, 20 * k + 20),
{
    let n = pieces.len();
    if n % PIECE_HASH_LENGTH != 0 {
        return None;
    }
    let count = n / PIECE_HASH_LENGTH;
    let mut hashes: Vec<Vec<u8>> = Vec::new();
    let mut k: usize = 0;
    while k < count
        invariant
            n == pieces@.len(),
            count == n / 20,
            n % 20 == 0,
            k <= count,
            hashes@.len() == k,
            forall|q: int| 0 <= q < k ==> (#[trigger] hashes@[q])@ == pieces@.subrange(20 * q, 20 * q + 20),
        decreases count - k,
    {
        assert(20 * k + 20 <= n) by (nonlinear_arith)
            requires k < count, count == n / 20, n % 20 == 0;
        let start = 20 * k;
        let mut h: Vec<u8> = Vec::new();
        let mut i: usize = 0;
        while i < 20
            invariant
                n == pieces@.len(),
                start + 20 <= n,
                i <= 20,
                h@ =~= pieces@.subrange(start as int, start + i),
            decreases 20 - i,
        {
            h.push(pieces[start + i]);
            i = i + 1;
        }
        hashes.push(h);
        k = k + 1;
    }
    Some(hashes)
}

/// The info hash: the digest of the bencoded info dictionary.
pub fn compute_info_hash(info_bytes: &Vec<u8>) -> (r: Vec<u8>)
    ensures
        r@ == sha1_of(info_bytes@),
        r@.len() == 20,
{
    sha1_digest(info_bytes)
}

/// The info hash of a metadata descriptor: the digest of the info dictionary's
/// bytes exactly as they stand in the file; `None` if the file has none.
pub fn info_hash_of_metadata(bytes: &Vec<u8>) -> (r: Option<Vec<u8>>)
    ensures
        r is Some <==> info_span(bytes@) is Some,
        r matches Some(h) ==> info_span(bytes@) matches Some((s, e)) && h@ == sha1_of(
            bytes@.subrange(s, e),
        ),
{
    match info_dict_span(bytes) {
        None => None,
        Some((s, e)) => {
            proof {
                crate::bencode::lemma_info_span_bounds(bytes@);
            }
            let mut info: Vec<u8> = Vec::new();
            let mut k = s;
            while k < e
                invariant
                    s <= k <= e <= bytes@.len(),
                    info@ =~= bytes@.subrange(s as int, k as int),
                decreases e - k,
            {
                info.push(bytes[k]);
                k = k + 1;
            }
            Some(compute_info_hash(&info))
        },
    }
}

/// "announce" in ASCII.
pub open spec fn announce_key() -> Seq<u8> {
    seq![0x61u8, 0x6e, 0x6e, 0x6f, 0x75, 0x6e, 0x63, 0x65]
}

/// "length" in ASCII.
pub open spec fn length_key() -> Seq<u8> {
    seq![0x6cu8, 0x65, 0x6e, 0x67, 0x74, 0x68]
}

/// "name" in ASCII.
pub open spec fn name_key() -> Seq<u8> {
    seq![0x6eu8, 0x61, 0x6d, 0x65]
}

/// "piece length" in ASCII.
pub open spec fn piece_length_key() -> Seq<u8> {
    seq![0x70u8, 0x69, 0x65, 0x63, 0x65, 0x20, 0x6c, 0x65, 0x6e, 0x67, 0x74, 0x68]
}

/// "pieces" in ASCII.
pub open spec fn pieces_key() -> Seq<u8> {
    seq![0x70u8, 0x69, 0x65, 0x63, 0x65, 0x73]
}

/// The bytes of the string stored under `key` among the items at `items`.
pub open spec fn field_string(b: Seq<u8>, items: int, key: Seq<u8>) -> Option<Seq<u8>> {
    match dict_lookup(b, items, key) {
        Some((s, e)) => string_value(b, s, e),
        None => None,
    }
}

/// The non-negative integer stored under `key` among the items at `items`.
pub open spec fn field_uint(b: Seq<u8>, items: int, key: Seq<u8>) -> Option<nat> {
    match dict_lookup(b, items, key) {
        Some((s, e)) => uint_value(b, s, e),
        None => None,
    }
}

/// An optional field: absent, or present and well formed.
pub open spec fn optional_ok<T>(b: Seq<u8>, items: int, key: Seq<u8>, value: Option<T>) -> bool {
    dict_lookup(b, items, key) is None || value is Some
}

/// A descriptor that a single-file torrent can be read from: a dictionary
/// whose info dictionary has a name, a piece length and whole piece digests,
/// with an optional length, and an optional announce URL at the top.
pub open spec fn metadata_ok(b: Seq<u8>) -> bool {
    match info_span(b) {
        Some((s, e)) => {
            let items = s + 1;
            &&& b[s] == 0x64
            &&& field_string(b, items, pieces_key()) matches Some(p) && p.len() % 20 == 0
            &&& field_uint(b, items, piece_length_key()) matches Some(l) && l <= usize::MAX
            &&& field_string(b, items, name_key()) matches Some(n) && valid_utf8(n)
            &&& optional_ok(b, items, length_key(), field_uint(b, items, length_key()))
            &&& field_uint(b, items, length_key()) matches Some(l) ==> l <= usize::MAX
            &&& optional_ok(b, 1, announce_key(), field_string(b, 1, announce_key()))
            &&& field_string(b, 1, announce_key()) matches Some(a) ==> valid_utf8(a)
        },
        None => false,
    }
}

/// Relies on std's `String::from_utf8`: the string that the bytes encode when
/// they are valid UTF-8, else an error.
#[verifier::external_body]
fn utf8_string(bytes: Vec<u8>) -> (r: Option<String>)
    ensures
        r is Some <==> valid_utf8(bytes@),
        r matches Some(s) ==> s@ == decode_utf8(bytes@),
{
    String::from_utf8(bytes).ok()
}

fn announce_key_bytes() -> (r: Vec<u8>)
    ensures
        r@ == announce_key(),
{
    let r: Vec<u8> = vec![0x61u8, 0x6e, 0x6e, 0x6f, 0x75, 0x6e, 0x63, 0x65];
    assert(r@ =~= announce_key());
    r
}

fn length_key_bytes() -> (r: Vec<u8>)
    ensures
        r@ == length_key(),
{
    let r: Vec<u8> = vec![0x6cu8, 0x65, 0x6e, 0x67, 0x74, 0x68];
    assert(r@ =~= length_key());
    r
}

fn name_key_bytes() -> (r: Vec<u8>)
    ensures
        r@ == name_key(),
{
    let r: Vec<u8> = vec![0x6eu8, 0x61, 0x6d, 0x65];
    assert(r@ =~= name_key());
    r
}

fn piece_length_key_bytes() -> (r: Vec<u8>)
    ensures
        r@ == piece_length_key(),
{
    let r: Vec<u8> = vec![0x70u8, 0x69, 0x65, 0x63, 0x65, 0x20, 0x6c, 0x65, 0x6e, 0x67, 0x74, 0x68];
    assert(r@ =~= piece_length_key());
    r
}

fn pieces_key_bytes() -> (r: Vec<u8>)
    ensures
        r@ == pieces_key(),
{
    let r: Vec<u8> = vec![0x70u8, 0x69, 0x65, 0x63, 0x65, 0x73];
    assert(r@ =~= pieces_key());
    r
}

fn field_string_at(b: &Vec<u8>, items: usize, key: &Vec<u8>) -> (r: (bool, Option<Vec<u8>>))
    ensures
        r.0 == dict_lookup(b@, items as int, key@) is Some,
        match r.1 {
            Some(v) => field_string(b@, items as int, key@) == Some(v@),
            None => field_string(b@, items as int, key@) is None,
        },
{
    match dict_value(b, items, key) {
        Some((s, e)) => (true, string_at(b, s, e)),
        None => (false, None),
    }
}

fn field_uint_at(b: &Vec<u8>, items: usize, key: &Vec<u8>) -> (r: (bool, Option<usize>))
    ensures
        r.0 == dict_lookup(b@, items as int, key@) is Some,
        match r.1 {
            Some(v) => field_uint(b@, items as int, key@) == Some(v as nat),
            None => !(field_uint(b@, items as int, key@) matches Some(x) && x <= usize::MAX),
        },
{
    match dict_value(b, items, key) {
        Some((s, e)) => (true, uint_at(b, s, e)),
        None => (false, None),
    }
}

/// Reads a single-file torrent's metadata descriptor.
pub fn parse_metadata(bytes: &Vec<u8>) -> (r: Option<Torrent>)
    ensures
        r is Some <==> metadata_ok(bytes@),
        r matches Some(t) ==> info_span(bytes@) matches Some((s, e)) && {
            let items = s + 1;
            &&& t.info_hash@ == sha1_of(bytes@.subrange(s, e))
            &&& field_string(bytes@, items, pieces_key()) == Some(t.info.pieces@)
            &&& field_uint(bytes@, items, piece_length_key()) == Some(t.info.piece_length as nat)
            &&& field_string(bytes@, items, name_key()) matches Some(n) && t.info.name@ == decode_utf8(n)
            &&& t.info.length == match field_uint(bytes@, items, length_key()) {
                Some(l) => Some(l as u64),
                None => None::<u64>,
            }
            &&& t.announce@ == match field_string(bytes@, 1, announce_key()) {
                Some(a) => decode_utf8(a),
                None => Seq::<char>::empty(),
            }
            &&& t.piece_hashes@.len() == t.info.pieces@.len() / 20
            &&& forall|k: int|
                0 <= k < t.piece_hashes@.len() ==> (#[trigger] t.piece_hashes@[k])@
                    == t.info.pieces@.subrange(20 * k, 20 * k + 20)
        },
{
    let (s, e) = match info_dict_span(bytes) {
        Some(span) => span,
        None => return None,
    };
    proof {
        crate::bencode::lemma_info_span_bounds(bytes@);
    }
    if bytes[s] != 0x64 {
        return None;
    }
    let items = s + 1;
    let pieces = match field_string_at(bytes, items, &pieces_key_bytes()).1 {
        Some(p) => p,
        None => return None,
    };
    let piece_hashes = match get_pieces_hashes(&pieces) {
        Some(h) => h,
        None => return None,
    };
    let piece_length = match field_uint_at(bytes, items, &piece_length_key_bytes()).1 {
        Some(l) => l,
        None => return None,
    };
    let name_bytes = match field_string_at(bytes, items, &name_key_bytes()).1 {
        Some(n) => n,
        None => return None,
    };
    let ghost name_view = name_bytes@;
    let name = match utf8_string(name_bytes) {
        Some(n) => n,
        None => return None,
    };
    let (has_length, length) = field_uint_at(bytes, items, &length_key_bytes());
    if has_length && length.is_none() {
        return None;
    }
    let (has_announce, announce_bytes) = field_string_at(bytes, 1, &announce_key_bytes());
    let announce = match announce_bytes {
        Some(a) => match utf8_string(a) {
            Some(text) => text,
            None => return None,
        },
        None => {
            if has_announce {
                return None;
            }
            proof {
                assert(decode_utf8(Seq::<u8>::empty()) =~= Seq::<char>::empty());
            }
            String::new()
        },
    };
    let info_hash = match info_hash_of_metadata(bytes) {
        Some(h) => h,
        None => return None,
    };
    let length = match length {
        Some(l) => Some(l as u64),
        None => None,
    };
    Some(
        Torrent {
            info: Info { length, name, pieces, piece_length: piece_length as u64 },
            announce,
            info_hash,
            piece_hashes,
        },
    )
}

/// "interval" in ASCII.
pub open spec fn interval_key() -> Seq<u8> {
    seq![0x69u8, 0x6e, 0x74, 0x65, 0x72, 0x76, 0x61, 0x6c]
}

/// "peers" in ASCII.
pub open spec fn peers_key() -> Seq<u8> {
    seq![0x70u8, 0x65, 0x65, 0x72, 0x73]
}

fn interval_key_bytes() -> (r: Vec<u8>)
    ensures
        r@ == interval_key(),
{
    let r: Vec<u8> = vec![0x69u8, 0x6e, 0x74, 0x65, 0x72, 0x76, 0x61, 0x6c];
    assert(r@ =~= interval_key());
    r
}

fn peers_key_bytes() -> (r: Vec<u8>)
    ensures
        r@ == peers_key(),
{
    let r: Vec<u8> = vec![0x70u8, 0x65, 0x65, 0x72, 0x73];
    assert(r@ =~= peers_key());
    r
}

/// A reply with a dictionary, an `interval` that fits a machine word and a `peers` string.
pub open spec fn response_ok(b: Seq<u8>) -> bool {
    &&& b.len() > 0
    &&& b[0] == 0x64
    &&& (field_uint(b, 1, interval_key()) matches Some(i) && i <= usize::MAX)
    &&& field_string(b, 1, peers_key()) is Some
}

/// `interval` and `peers` are what the reply holds.
pub open spec fn response_fields(b: Seq<u8>, interval: usize, peers: Seq<Peer>) -> bool {
    &&& field_uint(b, 1, interval_key()) == Some(interval as nat)
    &&& (field_string(b, 1, peers_key()) matches Some(p) && peers.len() == p.len() / 6 && forall|k: int|
        0 <= k < peers.len() ==> #[trigger] peers[k] == peer_at(p, 6 * k))
}

/// A tracker's announce reply: the seconds until the next announce and the
/// peers, from a dictionary with an integer `interval` and a compact `peers` list.
pub fn parse_tracker_response(bytes: &Vec<u8>) -> (r: Option<(usize, Vec<Peer>)>)
    ensures
        r is Some <==> response_ok(bytes@),
        r matches Some((interval, peers)) ==> response_fields(bytes@, interval, peers@),
{
    if bytes.len() == 0 || bytes[0] != 0x64 {
        return None;
    }
    let interval = match field_uint_at(bytes, 1, &interval_key_bytes()).1 {
        Some(i) => i,
        None => return None,
    };
    let compact = match field_string_at(bytes, 1, &peers_key_bytes()).1 {
        Some(p) => p,
        None => return None,
    };
    Some((interval, parse_compact_peers(&compact)))
}

/// The peers of a compact peer list, six bytes each; a trailing part shorter
/// than six bytes is ignored.
pub fn parse_compact_peers(bytes: &Vec<u8>) -> (r: Vec<Peer>)
    ensures
        r@.len() == bytes@.len() / 6,
        forall|k: int| 0 <= k < r@.len() ==> #[trigger] r@[k] == peer_at(bytes@, 6 * k),
{
    let n = bytes.len();
    let count = n / 6;
    let mut peers: Vec<Peer> = Vec::new();
    let mut k: usize = 0;
    while k < count
        invariant
            n == bytes@.len(),
            count == n / 6,
            k <= count,
            peers@.len() == k,
            forall|q: int| 0 <= q < k ==> #[trigger] peers@[q] == peer_at(bytes@, 6 * q),
        decreases count - k,
    {
        assert(6 * k + 6 <= n) by (nonlinear_arith)
            requires k < count, count == n / 6;
        let at = 6 * k;
        let ip: u32 = bytes[at] as u32 * 0x1000000 + bytes[at + 1] as u32 * 0x10000 + bytes[at + 2] as u32
            * 0x100 + bytes[at + 3] as u32;
        let port: u16 = bytes[at + 4] as u16 * 0x100 + bytes[at + 5] as u16;
        peers.push(Peer { ip, port });
        k = k + 1;
    }
    peers
}

impl TorrentLayout {
    /// The layout a single-file torrent describes; `None` where its length is
    /// absent or does not fit its pieces.
    pub fn from_torrent(torrent: &Torrent) -> (r: Option<TorrentLayout>)
        ensures
            r matches Some(l) ==> {
                &&& l.wf()
                &&& l.pieces == torrent.piece_hashes@.len()
                &&& l.head_pieces_length == torrent.info.piece_length
                &&& torrent.info.length == Some(l.output_file_length as u64)
                &&& l.usual_block_length == BLOCK_SIZE_BYTES
                &&& l.output_file_path == torrent.info.name
            },
            r is Some <==> (torrent.info.length matches Some(len) && torrent.piece_hashes@.len() >= 1
                && torrent.info.piece_length <= usize::MAX && len <= usize::MAX && (
            torrent.piece_hashes@.len() - 1) * torrent.info.piece_length < len && len <= torrent.piece_hashes@.len()
                * torrent.info.piece_length),
    {
        let total = match torrent.info.length {
            Some(t) => t,
            None => return None,
        };
        let pieces = torrent.piece_hashes.len();
        if pieces == 0 || torrent.info.piece_length > usize::MAX as u64 || total > usize::MAX as u64 {
            return None;
        }
        let head = torrent.info.piece_length as usize;
        let total = total as usize;
        let head_total = match (pieces - 1).checked_mul(head) {
            Some(t) => t,
            None => {
                proof {
                    assert((pieces - 1) * head >= total);
                }
                return None;
            },
        };
        if head_total >= total {
            return None;
        }
        let last = total - head_total;
        if last > head {
            proof {
                assert(pieces * head == (pieces - 1) * head + head) by (nonlinear_arith);
            }
            return None;
        }
        proof {
            assert(pieces * head == (pieces - 1) * head + head) by (nonlinear_arith);
        }
        TorrentLayout::new(pieces, head, last, BLOCK_SIZE_BYTES, torrent.info.name.clone())
    }
}

} // verus!
