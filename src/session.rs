use vstd::prelude::*;
use crate::bitfield::Bitfield;
use crate::events::InternalEvent;
use crate::layout::{Block, DataBlock, BLOCK_SIZE_BYTES};
use crate::message::{DecodeError, Message};
use crate::picker::RarestPiecePicker;

verus! {

/// The most blocks a session keeps requested from one peer.
pub const MAX_ONGOING_REQUESTS: usize = 10;

/// The protocol state of one peer session.
#[derive(Clone, Debug, PartialEq, Eq)]
pub struct P2PState {
    pub transfer_idx: usize,
    pub client_bitfield: Bitfield,
    pub peer_bitfield: Bitfield,
    pub client_is_choked: bool,
    pub peer_is_choked: bool,
    pub client_is_interested: bool,
    pub peer_is_interested: bool,
    /// Blocks requested from the peer and not yet received, without repeats.
    pub ongoing_requests: Vec<Block>,
}

/// Why a session ends.
#[derive(Clone, Debug, PartialEq, Eq)]
pub enum P2PError {
    TCPConnectionNotEstablished,
    HandshakeFailed,
    SocketClosed,
    IO(String),
    UnknownMessageReceived,
    MessageDeliveryFailed(String),
    /// The peer named a piece beyond its bitfield.
    InvalidPieceIndex(usize),
    /// The peer's handshake names another torrent.
    ProtocolMismatch,
    /// A frame longer than any message may be.
    OversizedMessage,
    /// A frame body too short, or of the wrong length, for its tag.
    MalformedMessage,
}

/// What a session reacts to: bus events and decoded peer messages.
#[derive(Debug)]
pub enum P2PEvent {
    BlockStored(Block),
    PieceStored(usize),
    SendKeepAlive,
    ChokePeer,
    UnchokePeer,
    PeerMessageReceived(Result<Message, P2PError>),
}

/// The reaction to one stimulus: events for the bus, messages for the peer,
/// and a block the peer asked for that is to be read and sent.
pub struct HandlerResult {
    pub internal_events: Vec<InternalEvent>,
    pub messages_for_peer: Vec<Message>,
    pub block_to_serve: Option<Block>,
}

/// The set of blocks a request list holds.
pub open spec fn request_set(s: Seq<Block>) -> Set<Block> {
    Set::new(|b: Block| s.contains(b))
}

/// Request messages for the given blocks, in order.
pub open spec fn requests_for(r: Seq<Block>) -> Seq<Message> {
    r.map_values(|b: Block| Message::Request(b))
}

impl P2PState {
    pub open spec fn wf(&self) -> bool {
        self.ongoing_requests@.no_duplicates()
    }

    /// Whether the peer has a piece that the client lacks.
    pub open spec fn wants_peer(&self) -> bool {
        self.peer_bitfield.has_missing_from(&self.client_bitfield)
    }

    /// Whether pick-blocks does nothing in this state.
    pub open spec fn pick_skipped(&self) -> bool {
        self.client_is_choked || !self.client_is_interested || self.ongoing_requests@.len()
            >= MAX_ONGOING_REQUESTS
    }

    /// The state right after the handshake.
    pub fn new(transfer_idx: usize, client_bitfield: Bitfield, num_of_pieces: usize) -> (r: Self)
        ensures
            r.wf(),
            r.transfer_idx == transfer_idx,
            r.client_bitfield == client_bitfield,
            r.peer_bitfield.content@ == crate::bitfield::empty_content(num_of_pieces as int),
            r.peer_bitfield.capacity() >= num_of_pieces,
            forall|i: int| !#[trigger] r.peer_bitfield.has(i),
            r.client_is_choked && r.peer_is_choked,
            !r.client_is_interested && !r.peer_is_interested,
            r.ongoing_requests@.len() == 0,
    {
        P2PState {
            transfer_idx,
            client_bitfield,
            peer_bitfield: Bitfield::init(num_of_pieces),
            client_is_choked: true,
            peer_is_choked: true,
            client_is_interested: false,
            peer_is_interested: false,
            ongoing_requests: Vec::new(),
        }
    }
}

impl HandlerResult {
    pub fn new() -> (r: Self)
        ensures
            r.internal_events@ == Seq::<InternalEvent>::empty(),
            r.messages_for_peer@ == Seq::<Message>::empty(),
            r.block_to_serve is None,
    {
        let r = HandlerResult {
            internal_events: Vec::new(),
            messages_for_peer: Vec::new(),
            block_to_serve: None,
        };
        assert(r.internal_events@ =~= Seq::<InternalEvent>::empty());
        assert(r.messages_for_peer@ =~= Seq::<Message>::empty());
        r
    }

    pub fn event(&mut self, event: InternalEvent)
        ensures
            final(self).internal_events@ == old(self).internal_events@.push(event),
            final(self).messages_for_peer@ == old(self).messages_for_peer@,
            final(self).block_to_serve == old(self).block_to_serve,
    {
        self.internal_events.push(event);
    }

    pub fn msg(&mut self, message: Message)
        ensures
            final(self).messages_for_peer@ == old(self).messages_for_peer@.push(message),
            final(self).internal_events@ == old(self).internal_events@,
            final(self).block_to_serve == old(self).block_to_serve,
    {
        self.messages_for_peer.push(message);
    }
}

/// Adds a block to a request list unless it is there already.
fn add_request(requests: &mut Vec<Block>, block: Block)
    requires
        old(requests)@.no_duplicates(),
    ensures
        final(requests)@.no_duplicates(),
        request_set(final(requests)@) == request_set(old(requests)@).insert(block),
{
    let mut i: usize = 0;
    while i < requests.len()
        invariant
            requests@ == old(requests)@,
            old(requests)@.no_duplicates(),
            i <= requests@.len(),
            forall|k: int| 0 <= k < i ==> requests@[k] != block,
        decreases requests@.len() - i,
    {
        if requests[i] == block {
            assert(requests@.contains(block));
            assert(request_set(requests@).insert(block) =~= request_set(requests@));
            return;
        }
        i = i + 1;
    }
    let ghost before = requests@;
    requests.push(block);
    proof {
        assert forall|a: int, b: int| 0 <= a < b < requests@.len() implies requests@[a] != requests@[b] by {
            if b == before.len() {
                assert(requests@[a] == before[a]);
            }
        }
        assert forall|b: Block| #[trigger] requests@.contains(b) == (before.contains(b) || b == block) by {
            if before.contains(b) {
                let k = choose|k: int| 0 <= k < before.len() && before[k] == b;
                assert(requests@[k] == b);
            }
            if b == block {
                assert(requests@[before.len() as int] == b);
            }
        }
        assert(request_set(requests@) =~= request_set(before).insert(block));
    }
}

/// Removes a block from a request list; says whether it was there.
fn remove_request(requests: &mut Vec<Block>, block: Block) -> (r: bool)
    requires
        old(requests)@.no_duplicates(),
    ensures
        final(requests)@.no_duplicates(),
        r == old(requests)@.contains(block),
        request_set(final(requests)@) == request_set(old(requests)@).remove(block),
{
    let mut i: usize = 0;
    while i < requests.len()
        invariant
            requests@ == old(requests)@,
            old(requests)@.no_duplicates(),
            i <= requests@.len(),
            forall|k: int| 0 <= k < i ==> requests@[k] != block,
        decreases requests@.len() - i,
    {
        if requests[i] == block {
            let ghost before = requests@;
            requests.remove(i);
            proof {
                assert(before[i as int] == block);
                assert(requests@ =~= before.remove(i as int));
                assert forall|a: int, b: int| 0 <= a < b < requests@.len() implies requests@[a] != requests@[b] by {
                    let a2 = if a < i { a } else { a + 1 };
                    let b2 = if b < i { b } else { b + 1 };
                    assert(requests@[a] == before[a2]);
                    assert(requests@[b] == before[b2]);
                }
                assert forall|b: Block| #[trigger] requests@.contains(b) == (before.contains(b) && b != block) by {
                    if requests@.contains(b) {
                        let k = choose|k: int| 0 <= k < requests@.len() && requests@[k] == b;
                        if k < i {
                            assert(before[k] == b);
                            assert(k != i as int);
                        } else {
                            assert(before[k + 1] == b);
                            assert(k + 1 != i as int);
                        }
                    }
                    if before.contains(b) && b != block {
                        let k = choose|k: int| 0 <= k < before.len() && before[k] == b;
                        if k < i {
                            assert(requests@[k] == b);
                        } else {
                            assert(k != i as int);
                            assert(requests@[k - 1] == b);
                        }
                    }
                }
                assert(request_set(requests@) =~= request_set(before).remove(block));
                assert(before[i as int] == block);
            }
            return true;
        }
        i = i + 1;
    }
    assert(!requests@.contains(block));
    assert(request_set(requests@).remove(block) =~= request_set(requests@));
    false
}

/// Recomputes whether the client wants data from the peer; on a change it
/// tells the peer and the bus.
pub fn update_clients_interested_status(state: &mut P2PState, result: &mut HandlerResult)
    ensures
        *final(state) == interest_state(*old(state)),
        final(result).messages_for_peer@ == interest_msgs(*old(state), old(result).messages_for_peer@),
        final(result).internal_events@ == interest_events(*old(state), old(result).internal_events@),
        final(result).block_to_serve == old(result).block_to_serve,
{
    let peer_has_needed_data = state.peer_bitfield.has_any_missing_pieces_from(&state.client_bitfield);
    if peer_has_needed_data && !state.client_is_interested {
        state.client_is_interested = true;
        result.msg(Message::Interested);
        result.event(InternalEvent::ClientInterestedInPeer(state.transfer_idx, true));
    } else if !peer_has_needed_data && state.client_is_interested {
        state.client_is_interested = false;
        result.msg(Message::NotInterested);
        result.event(InternalEvent::ClientInterestedInPeer(state.transfer_idx, false));
    }
}

/// The state after the interest recomputation.
pub open spec fn interest_state(s: P2PState) -> P2PState {
    P2PState { client_is_interested: s.wants_peer(), ..s }
}

/// The messages after the interest recomputation: a notice when interest changes.
pub open spec fn interest_msgs(s: P2PState, m: Seq<Message>) -> Seq<Message> {
    if s.wants_peer() == s.client_is_interested {
        m
    } else {
        m.push(if s.wants_peer() { Message::Interested } else { Message::NotInterested })
    }
}

/// The events after the interest recomputation: a notice when interest changes.
pub open spec fn interest_events(s: P2PState, e: Seq<InternalEvent>) -> Seq<InternalEvent> {
    if s.wants_peer() == s.client_is_interested {
        e
    } else {
        e.push(InternalEvent::ClientInterestedInPeer(s.transfer_idx, s.wants_peer()))
    }
}

/// The pick-blocks step from state `s0`, messages `m0` and picker `k0`.
pub open spec fn pick_step(
    s0: P2PState,
    s1: P2PState,
    m0: Seq<Message>,
    m1: Seq<Message>,
    k0: RarestPiecePicker,
    k1: RarestPiecePicker,
) -> bool {
    &&& s1 == (P2PState { ongoing_requests: s1.ongoing_requests, ..s0 })
    &&& s1.wf()
    &&& if s0.pick_skipped() {
        &&& s1.ongoing_requests@ == s0.ongoing_requests@
        &&& m1 == m0
        &&& k1.same_state(&k0)
    } else {
        exists|r: Seq<Block>|
            {
                &&& k0.pick_spec(
                    k1,
                    &s0.peer_bitfield,
                    MAX_ONGOING_REQUESTS - s0.ongoing_requests@.len(),
                    r,
                )
                &&& m1 == m0 + #[trigger] requests_for(r)
                &&& request_set(s1.ongoing_requests@) == request_set(s0.ongoing_requests@)
                    + request_set(r)
            }
    }
}

/// Asks the picker for blocks when the client may request and wants data,
/// and requests them from the peer.
#[verifier::rlimit(40)]
pub fn pick_blocks(state: &mut P2PState, result: &mut HandlerResult, picker: &mut RarestPiecePicker)
    requires
        old(state).wf(),
        old(picker).wf(),
    ensures
        final(picker).wf(),
        pick_step(
            *old(state),
            *final(state),
            old(result).messages_for_peer@,
            final(result).messages_for_peer@,
            *old(picker),
            *final(picker),
        ),
        final(result).internal_events@ == old(result).internal_events@,
        final(result).block_to_serve == old(result).block_to_serve,
{
    if state.client_is_choked || !state.client_is_interested || state.ongoing_requests.len()
        >= MAX_ONGOING_REQUESTS {
        return;
    }
    let wanted = MAX_ONGOING_REQUESTS - state.ongoing_requests.len();
    let blocks = picker.pick(&state.peer_bitfield, wanted);
    let ghost s0 = *state;
    let ghost m0 = result.messages_for_peer@;
    let mut i: usize = 0;
    while i < blocks.len()
        invariant
            i <= blocks@.len(),
            state.wf(),
            *state == (P2PState { ongoing_requests: state.ongoing_requests, ..s0 }),
            request_set(state.ongoing_requests@) == request_set(s0.ongoing_requests@) + request_set(
                blocks@.subrange(0, i as int),
            ),
            result.messages_for_peer@ == m0 + requests_for(blocks@.subrange(0, i as int)),
            result.internal_events@ == old(result).internal_events@,
            result.block_to_serve == old(result).block_to_serve,
        decreases blocks@.len() - i,
    {
        let b = blocks[i];
        add_request(&mut state.ongoing_requests, b);
        result.msg(Message::Request(b));
        proof {
            let (p0, p1) = (blocks@.subrange(0, i as int), blocks@.subrange(0, i + 1));
            assert(p1 =~= p0.push(b));
            assert(request_set(p1) =~= request_set(p0).insert(b)) by {
                assert forall|x: Block| #[trigger] p1.contains(x) == (p0.contains(x) || x == b) by {
                    if p0.contains(x) {
                        let k = choose|k: int| 0 <= k < p0.len() && p0[k] == x;
                        assert(p1[k] == x);
                    }
                    if x == b {
                        assert(p1[i as int] == x);
                    }
                }
            }
            assert(requests_for(p1) =~= requests_for(p0).push(Message::Request(b)));
            assert(m0 + requests_for(p1) =~= (m0 + requests_for(p0)).push(Message::Request(b)));
            assert(request_set(state.ongoing_requests@) =~= request_set(s0.ongoing_requests@)
                + request_set(p1));
        }
        i = i + 1;
    }
    proof {
        let r = blocks@;
        assert(r.subrange(0, r.len() as int) =~= r);
        assert(result.messages_for_peer@ == m0 + requests_for(r));
        assert(request_set(state.ongoing_requests@) == request_set(s0.ongoing_requests@) + request_set(r));
    }
}

/// Whether a peer's request for `b` is served: a block at most the block
/// size, from an unchoked interested peer, of a piece the client has.
pub open spec fn serves(s: P2PState, b: Block) -> bool {
    &&& b.length <= BLOCK_SIZE_BYTES
    &&& !s.peer_is_choked
    &&& s.peer_is_interested
    &&& s.client_bitfield.has(b.piece_idx as int)
}

/// The interest recomputation followed by pick-blocks, from state `s`,
/// events `e`, messages `m` and picker `k`, to a result `r`.
pub open spec fn interest_then_pick(
    s: P2PState,
    e: Seq<InternalEvent>,
    m: Seq<Message>,
    k: RarestPiecePicker,
    s1: P2PState,
    r: HandlerResult,
    k1: RarestPiecePicker,
) -> bool {
    &&& r.internal_events@ == interest_events(s, e)
    &&& r.block_to_serve is None
    &&& pick_step(interest_state(s), s1, interest_msgs(s, m), r.messages_for_peer@, k, k1)
}

/// A result with only the given events.
pub open spec fn only_events(r: HandlerResult, e: Seq<InternalEvent>) -> bool {
    &&& r.internal_events@ == e
    &&& r.messages_for_peer@.len() == 0
    &&& r.block_to_serve is None
}

/// The reaction of a session to a decoded peer message, from state `s0` and
/// picker `k0`.
pub open spec fn peer_message_step(
    m: Message,
    s0: P2PState,
    k0: RarestPiecePicker,
    s1: P2PState,
    k1: RarestPiecePicker,
    out: Result<HandlerResult, P2PError>,
) -> bool {
    let none = Seq::<InternalEvent>::empty();
    match m {
        Message::Choke => out matches Ok(r) && only_events(r, none) && s1 == (P2PState {
            client_is_choked: true,
            ..s0
        }) && k1.same_state(&k0),
        Message::Unchoke => out matches Ok(r) && r.internal_events@ == none && r.block_to_serve is None
            && pick_step(
            P2PState { client_is_choked: false, ..s0 },
            s1,
            Seq::empty(),
            r.messages_for_peer@,
            k0,
            k1,
        ),
        Message::Interested => out matches Ok(r) && s1 == (P2PState { peer_is_interested: true, ..s0 })
            && only_events(r, seq![InternalEvent::PeerInterestedInClient(s0.transfer_idx, true)])
            && k1.same_state(&k0),
        Message::NotInterested => out matches Ok(r) && s1 == (P2PState {
            peer_is_interested: false,
            ..s0
        }) && only_events(r, seq![InternalEvent::PeerInterestedInClient(s0.transfer_idx, false)])
            && k1.same_state(&k0),
        Message::Have(p) => if p >= s0.peer_bitfield.capacity() {
            out == Err::<HandlerResult, P2PError>(P2PError::InvalidPieceIndex(p)) && s1 == s0 && k1.same_state(&k0)
        } else {
            out matches Ok(r) && exists|b: Bitfield, k_a: RarestPiecePicker|
                #![trigger b.acquired_from(s0.peer_bitfield, p as int), k0.raised_by(k_a, seq![p])]
                b.acquired_from(s0.peer_bitfield, p as int) && k0.raised_by(k_a, seq![p])
                    && interest_then_pick(
                    P2PState { peer_bitfield: b, ..s0 },
                    none,
                    Seq::empty(),
                    k_a,
                    s1,
                    r,
                    k1,
                )
        },
        Message::Bitfield(bytes) => if bytes@.len() * 8 > usize::MAX {
            out == Err::<HandlerResult, P2PError>(P2PError::UnknownMessageReceived) && s1 == s0 && k1.same_state(&k0)
        } else {
            out matches Ok(r) && exists|pieces: Seq<usize>, k_a: RarestPiecePicker|
                #[trigger] k0.raised_by(k_a, pieces) && (forall|i: int|
                    #[trigger] (Bitfield { content: bytes }).has(i) ==> pieces.contains(i as usize))
                    && (forall|j: int|
                    0 <= j < pieces.len() ==> (Bitfield { content: bytes }).has(#[trigger] pieces[j] as int))
                    && (forall|a: int, b: int| 0 <= a < b < pieces.len() ==> pieces[a] < pieces[b])
                    && interest_then_pick(
                    P2PState { peer_bitfield: Bitfield { content: bytes }, ..s0 },
                    none,
                    Seq::empty(),
                    k_a,
                    s1,
                    r,
                    k1,
                )
        },
        Message::Request(b) => out matches Ok(r) && s1 == s0 && k1.same_state(&k0)
            && r.internal_events@ == none && r.messages_for_peer@.len() == 0 && r.block_to_serve == if serves(
            s0,
            b,
        ) {
            Some(b)
        } else {
            None
        },
        Message::Piece(d) => out matches Ok(r) && exists|s_a: P2PState|
            #[trigger] s_a.ongoing_requests@.no_duplicates() && s_a == (P2PState {
                ongoing_requests: s_a.ongoing_requests,
                ..s0
            }) && request_set(s_a.ongoing_requests@) == request_set(s0.ongoing_requests@).remove(
                d.block_spec(),
            ) && interest_then_pick(
                s_a,
                seq![InternalEvent::BlockDownloaded(s0.transfer_idx, d)],
                Seq::empty(),
                k0,
                s1,
                r,
                k1,
            ),
        _ => out matches Ok(r) && only_events(r, none) && s1 == s0 && k1.same_state(&k0),
    }
}

/// Reacts to a decoded message from the peer.
pub fn handle_peer_message(message: Message, state: &mut P2PState, picker: &mut RarestPiecePicker) -> (out:
    Result<HandlerResult, P2PError>)
    requires
        old(state).wf(),
        old(picker).wf(),
    ensures
        final(state).wf(),
        final(picker).wf(),
        peer_message_step(message, *old(state), *old(picker), *final(state), *final(picker), out),
{
    let mut result = HandlerResult::new();
    let ghost s0 = *state;
    let ghost k0 = *picker;
    match message {
        Message::KeepAlive => {},
        Message::Choke => {
            state.client_is_choked = true;
        },
        Message::Unchoke => {
            state.client_is_choked = false;
            pick_blocks(state, &mut result, picker);
        },
        Message::Interested => {
            state.peer_is_interested = true;
            result.event(InternalEvent::PeerInterestedInClient(state.transfer_idx, true));
            assert(result.internal_events@ =~= seq![InternalEvent::PeerInterestedInClient(s0.transfer_idx, true)]);
        },
        Message::NotInterested => {
            state.peer_is_interested = false;
            result.event(InternalEvent::PeerInterestedInClient(state.transfer_idx, false));
            assert(result.internal_events@ =~= seq![InternalEvent::PeerInterestedInClient(s0.transfer_idx, false)]);
        },
        Message::Have(piece_idx) => {
            let cap = state.peer_bitfield.content.len();
            if piece_idx / 8 >= cap {
                return Err(P2PError::InvalidPieceIndex(piece_idx));
            }
            picker.increase_availability_for_piece(piece_idx);
            let ghost k_a = *picker;
            state.peer_bitfield.piece_acquired(piece_idx);
            let ghost s_a = *state;
            update_clients_interested_status(state, &mut result);
            pick_blocks(state, &mut result, picker);
            assert(s_a.peer_bitfield.acquired_from(s0.peer_bitfield, piece_idx as int) && k0.raised_by(k_a, seq![piece_idx]));
        },
        Message::Bitfield(bitfield_vec) => {
            if bitfield_vec.len() > usize::MAX / 8 {
                return Err(P2PError::UnknownMessageReceived);
            }
            state.peer_bitfield = Bitfield::new(bitfield_vec);
            let pieces = state.peer_bitfield.to_available_pieces_vec();
            let ghost ps = pieces@;
            picker.increase_availability_for_pieces(pieces);
            let ghost k_a = *picker;
            update_clients_interested_status(state, &mut result);
            pick_blocks(state, &mut result, picker);
            assert(k0.raised_by(k_a, ps));
        },
        Message::Request(block) => {
            if block.length <= BLOCK_SIZE_BYTES && !state.peer_is_choked && state.peer_is_interested
                && state.client_bitfield.has_piece(block.piece_idx) {
                result.block_to_serve = Some(block);
            }
        },
        Message::Piece(data_block) => {
            let block = data_block.to_block();
            remove_request(&mut state.ongoing_requests, block);
            let ghost s_a = *state;
            result.event(InternalEvent::BlockDownloaded(state.transfer_idx, data_block));
            assert(result.internal_events@ =~= seq![InternalEvent::BlockDownloaded(s0.transfer_idx, data_block)]);
            update_clients_interested_status(state, &mut result);
            pick_blocks(state, &mut result, picker);
            assert(s_a.ongoing_requests@.no_duplicates());
        },
        Message::Cancel(_) => {},
        Message::Port(_) => {},
    }
    Ok(result)
}

/// The reaction of a session to a stimulus, from state `s0` and picker `k0`.
pub open spec fn event_step(
    ev: P2PEvent,
    s0: P2PState,
    k0: RarestPiecePicker,
    s1: P2PState,
    k1: RarestPiecePicker,
    out: Result<HandlerResult, P2PError>,
) -> bool {
    let none = Seq::<InternalEvent>::empty();
    match ev {
        P2PEvent::BlockStored(b) => out matches Ok(r) && r.internal_events@ == none && r.block_to_serve
            is None && k1.same_state(&k0) && s1 == (P2PState {
            ongoing_requests: s1.ongoing_requests,
            ..s0
        }) && request_set(s1.ongoing_requests@) == request_set(s0.ongoing_requests@).remove(b)
            && r.messages_for_peer@ == if s0.ongoing_requests@.contains(b) {
            seq![Message::Cancel(b)]
        } else {
            Seq::empty()
        },
        P2PEvent::PieceStored(p) => out matches Ok(r) && k1.same_state(&k0) && r.block_to_serve is None
            && if p < s0.client_bitfield.capacity() {
            exists|b: Bitfield|
                #[trigger] b.acquired_from(s0.client_bitfield, p as int) && {
                    let s_a = P2PState { client_bitfield: b, ..s0 };
                    &&& s1 == interest_state(s_a)
                    &&& r.internal_events@ == interest_events(s_a, none)
                    &&& r.messages_for_peer@ == interest_msgs(s_a, Seq::empty()).push(Message::Have(p))
                }
        } else {
            s1 == s0 && only_events(r, none)
        },
        P2PEvent::SendKeepAlive => out matches Ok(r) && s1 == s0 && k1.same_state(&k0)
            && r.internal_events@ == none && r.messages_for_peer@ == seq![Message::KeepAlive]
            && r.block_to_serve is None,
        P2PEvent::ChokePeer => out matches Ok(r) && s1 == (P2PState { peer_is_choked: true, ..s0 })
            && k1.same_state(&k0) && r.internal_events@ == none && r.messages_for_peer@ == seq![
            Message::Choke,
        ] && r.block_to_serve is None,
        P2PEvent::UnchokePeer => out matches Ok(r) && s1 == (P2PState { peer_is_choked: false, ..s0 })
            && k1.same_state(&k0) && r.internal_events@ == none && r.messages_for_peer@ == seq![
            Message::Unchoke,
        ] && r.block_to_serve is None,
        P2PEvent::PeerMessageReceived(Err(e)) => out == Err::<HandlerResult, P2PError>(e) && s1 == s0
            && k1.same_state(&k0),
        P2PEvent::PeerMessageReceived(Ok(m)) => peer_message_step(m, s0, k0, s1, k1, out),
    }
}

/// Reacts to one stimulus of the session. An error ends the session.
pub fn handle(event: P2PEvent, state: &mut P2PState, picker: &mut RarestPiecePicker) -> (out: Result<
    HandlerResult,
    P2PError,
>)
    requires
        old(state).wf(),
        old(picker).wf(),
    ensures
        final(state).wf(),
        final(picker).wf(),
        event_step(event, *old(state), *old(picker), *final(state), *final(picker), out),
{
    let mut result = HandlerResult::new();
    let ghost s0 = *state;
    match event {
        P2PEvent::BlockStored(block) => {
            if remove_request(&mut state.ongoing_requests, block) {
                result.msg(Message::Cancel(block));
                assert(result.messages_for_peer@ =~= seq![Message::Cancel(block)]);
            }
        },
        P2PEvent::PieceStored(piece_idx) => {
            if piece_idx / 8 < state.client_bitfield.content.len() {
                state.client_bitfield.piece_acquired(piece_idx);
                let ghost s_a = *state;
                update_clients_interested_status(state, &mut result);
                result.msg(Message::Have(piece_idx));
                assert(s_a.client_bitfield.acquired_from(s0.client_bitfield, piece_idx as int));
            }
        },
        P2PEvent::SendKeepAlive => {
            result.msg(Message::KeepAlive);
            assert(result.messages_for_peer@ =~= seq![Message::KeepAlive]);
        },
        P2PEvent::ChokePeer => {
            state.peer_is_choked = true;
            result.msg(Message::Choke);
            assert(result.messages_for_peer@ =~= seq![Message::Choke]);
        },
        P2PEvent::UnchokePeer => {
            state.peer_is_choked = false;
            result.msg(Message::Unchoke);
            assert(result.messages_for_peer@ =~= seq![Message::Unchoke]);
        },
        P2PEvent::PeerMessageReceived(message) => {
            return match message {
                Ok(m) => handle_peer_message(m, state, picker),
                Err(e) => Err(e),
            };
        },
    }
    Ok(result)
}

/// Completes the serving of a request once the block's bytes are read:
/// reports the upload and sends the piece.
pub fn serve_block(block: &Block, data: Vec<u8>, result: &mut HandlerResult)
    ensures
        final(result).internal_events@ == old(result).internal_events@.push(
            InternalEvent::BlockUploaded(data@.len() as usize),
        ),
        final(result).messages_for_peer@ == old(result).messages_for_peer@.push(
            Message::Piece(DataBlock { piece_idx: block.piece_idx, offset: block.offset, data }),
        ),
        final(result).block_to_serve is None,
{
    result.event(InternalEvent::BlockUploaded(data.len()));
    result.msg(Message::Piece(DataBlock::new(block.piece_idx, block.offset, data)));
    result.block_to_serve = None;
}

/// The session error for a frame body that does not decode.
pub fn decode_failure(e: DecodeError) -> (r: P2PError)
    ensures
        r == match e {
            DecodeError::UnknownMessage => P2PError::UnknownMessageReceived,
            DecodeError::OversizedMessage => P2PError::OversizedMessage,
            DecodeError::Malformed => P2PError::MalformedMessage,
        },
{
    match e {
        DecodeError::UnknownMessage => P2PError::UnknownMessageReceived,
        DecodeError::OversizedMessage => P2PError::OversizedMessage,
        DecodeError::Malformed => P2PError::MalformedMessage,
    }
}

} // verus!
