use vstd::prelude::*;
use crate::digest::{sha1_digest, sha1_of};
use crate::events::InternalEvent;
use crate::layout::{Block, DataBlock, TorrentLayout};
use crate::picker::RarestPiecePicker;

verus! {

/// How many entries of `s` are true.
pub open spec fn count_true(s: Seq<bool>) -> nat
    decreases s.len(),
{
    if s.len() == 0 {
        0
    } else {
        count_true(s.drop_last()) + if s.last() { 1nat } else { 0nat }
    }
}

proof fn lemma_count_bound(s: Seq<bool>)
    ensures
        count_true(s) <= s.len(),
    decreases s.len(),
{
    if s.len() > 0 {
        lemma_count_bound(s.drop_last());
    }
}

proof fn lemma_count_set(s: Seq<bool>, i: int)
    requires
        0 <= i < s.len(),
        !s[i],
    ensures
        count_true(s.update(i, true)) == count_true(s) + 1,
    decreases s.len(),
{
    let t = s.update(i, true);
    if i == s.len() - 1 {
        assert(t.drop_last() =~= s.drop_last());
    } else {
        assert(t.drop_last() =~= s.drop_last().update(i, true));
        lemma_count_set(s.drop_last(), i);
    }
}

/// Reassembles arriving blocks: drops repeats, has each new block written,
/// and checks each complete piece against its expected digest.
pub struct DataCollector {
    pub layout: TorrentLayout,
    pub piece_hashes: Vec<Vec<u8>>,
    /// For each piece and block, whether the block has arrived since the
    /// piece was last reset.
    pub received: Vec<Vec<bool>>,
    /// For each piece, whether it passed its digest check.
    pub committed: Vec<bool>,
    pub acquired_pieces: usize,
    /// The block handed out for writing whose write is not yet reported done.
    pub awaiting_write: Option<Block>,
}

impl DataCollector {
    pub open spec fn n(&self) -> int {
        self.layout.pieces as int
    }

    pub open spec fn got(&self, p: int, j: int) -> bool {
        self.received@[p]@[j]
    }

    /// Every block of piece `p` has arrived.
    pub open spec fn complete(&self, p: int) -> bool {
        forall|j: int| 0 <= j < self.layout.num_blocks(p) ==> #[trigger] self.got(p, j)
    }

    /// Piece `p` is complete and waits for its digest check.
    pub open spec fn ready(&self, p: int) -> bool {
        0 <= p < self.n() && self.complete(p) && !self.committed@[p]
    }

    pub open spec fn wf(&self) -> bool {
        &&& self.layout.wf()
        &&& self.piece_hashes@.len() == self.n()
        &&& self.received@.len() == self.n()
        &&& self.committed@.len() == self.n()
        &&& forall|p: int|
            0 <= p < self.n() ==> (#[trigger] self.received@[p])@.len() == self.layout.num_blocks(p)
        &&& forall|p: int| 0 <= p < self.n() && #[trigger] self.committed@[p] ==> self.complete(p)
        &&& self.acquired_pieces == count_true(self.committed@)
        &&& self.awaiting_write matches Some(b) ==> self.layout.index_of(b) is Some
    }

    /// A collector with nothing received.
    pub fn new(layout: TorrentLayout, piece_hashes: Vec<Vec<u8>>) -> (r: Self)
        requires
            layout.wf(),
            piece_hashes@.len() == layout.pieces,
        ensures
            r.wf(),
            r.layout == layout,
            r.piece_hashes == piece_hashes,
            r.acquired_pieces == 0,
            r.awaiting_write is None,
            forall|p: int, j: int|
                0 <= p < r.n() && 0 <= j < layout.num_blocks(p) ==> !#[trigger] r.got(p, j),
            forall|p: int| 0 <= p < r.n() ==> !#[trigger] r.committed@[p],
    {
        let n = layout.pieces;
        let mut received: Vec<Vec<bool>> = Vec::new();
        let mut committed: Vec<bool> = Vec::new();
        let mut p: usize = 0;
        while p < n
            invariant
                layout.wf(),
                n == layout.pieces,
                p <= n,
                received@.len() == p,
                committed@.len() == p,
                forall|q: int| 0 <= q < p ==> !#[trigger] committed@[q],
                forall|q: int|
                    0 <= q < p ==> (#[trigger] received@[q])@.len() == layout.num_blocks(q)
                        && forall|j: int| 0 <= j < layout.num_blocks(q) ==> !#[trigger] received@[q]@[j],
            decreases n - p,
        {
            let nb = layout.blocks_in_piece(p);
            received.push(vec![false; nb]);
            committed.push(false);
            p = p + 1;
        }
        proof {
            assert forall|k: int| 0 <= k <= committed@.len() implies #[trigger] count_true(committed@.subrange(0, k)) == 0 by {
                lemma_count_zero(committed@, k);
            }
            assert(committed@.subrange(0, committed@.len() as int) =~= committed@);
        }
        DataCollector { layout, piece_hashes, received, committed, acquired_pieces: 0, awaiting_write: None }
    }

    /// What `accept` does with a block: one that names no block of the layout,
    /// or that arrived already, is dropped; a new one is recorded and returned
    /// for writing.
    pub open spec fn accept_spec(&self, after: Self, d: DataBlock, r: Option<Block>) -> bool {
        match self.layout.index_of(d.block_spec()) {
            Some(j) => {
                let p = d.piece_idx as int;
                if self.got(p, j) {
                    r is None && after == *self
                } else {
                    &&& r == Some(d.block_spec())
                    &&& after == (DataCollector {
                        received: after.received,
                        awaiting_write: Some(d.block_spec()),
                        ..*self
                    })
                    &&& after.received@.len() == self.received@.len()
                    &&& after.received@[p]@ == self.received@[p]@.update(j, true)
                    &&& forall|q: int|
                        0 <= q < self.n() && q != p ==> #[trigger] after.received@[q] == self.received@[q]
                }
            },
            None => r is None && after == *self,
        }
    }

    /// Takes in an arriving block; returns its locator when it is to be
    /// written. One block is written at a time.
    pub fn accept(&mut self, data_block: &DataBlock) -> (r: Option<Block>)
        requires
            old(self).wf(),
            old(self).awaiting_write is None,
        ensures
            final(self).wf(),
            old(self).accept_spec(*final(self), *data_block, r),
    {
        let block = data_block.to_block();
        match self.layout.locate(&block) {
            None => None,
            Some(j) => {
                let p = block.piece_idx;
                if self.received[p][j] {
                    return None;
                }
                let ghost before = *self;
                self.received[p][j] = true;
                self.awaiting_write = Some(block);
                proof {
                    assert(self.received@[p as int]@ =~= before.received@[p as int]@.update(j as int, true));
                    assert forall|q: int| 0 <= q < self.n() && #[trigger] self.committed@[q] implies self.complete(q) by {
                        assert(before.complete(q));
                        if q == p as int {
                            assert(!before.got(q, j as int));
                        } else {
                            assert(self.received@[q] == before.received@[q]);
                            assert forall|k: int| 0 <= k < self.layout.num_blocks(q) implies #[trigger] self.got(q, k) by {
                                assert(before.got(q, k));
                            }
                        }
                    }
                    assert forall|q: int| 0 <= q < self.n() implies (#[trigger] self.received@[q])@.len() == self.layout.num_blocks(q) by {
                        if q != p as int { assert(self.received@[q] == before.received@[q]); }
                    }
                }
                Some(block)
            },
        }
    }

    fn is_complete(&self, p: usize) -> (r: bool)
        requires
            self.wf(),
            p < self.n(),
        ensures
            r == self.complete(p as int),
    {
        let nb = self.layout.blocks_in_piece(p);
        let mut j: usize = 0;
        while j < nb
            invariant
                self.wf(),
                p < self.n(),
                nb == self.layout.num_blocks(p as int),
                j <= nb,
                forall|k: int| 0 <= k < j ==> #[trigger] self.got(p as int, k),
            decreases nb - j,
        {
            if !self.received[p][j] {
                assert(!self.got(p as int, j as int));
                return false;
            }
            j = j + 1;
        }
        true
    }

    /// What reporting the write of `block` as done does: for the block that
    /// `accept` handed out, the picker forgets it, the bus hears of it, and its
    /// piece is named when ready for its digest check; anything else is ignored.
    pub open spec fn written_spec(
        &self,
        after: Self,
        k0: RarestPiecePicker,
        k1: RarestPiecePicker,
        block: Block,
        events: Seq<InternalEvent>,
        ready: Option<usize>,
    ) -> bool {
        if self.awaiting_write == Some(block) {
            &&& after == (DataCollector { awaiting_write: None, ..*self })
            &&& k0.removal(k1, block)
            &&& events == seq![InternalEvent::BlockStored(block)]
            &&& ready == if self.ready(block.piece_idx as int) {
                Some(block.piece_idx)
            } else {
                None::<usize>
            }
        } else {
            after == *self && k1.same_state(&k0) && events.len() == 0 && ready is None
        }
    }

    /// After the write of the block that `accept` handed out completed: the
    /// picker forgets the block, the bus hears of it, and a piece whose blocks
    /// have all arrived is named for its digest check. Any other block is
    /// ignored.
    pub fn block_written(&mut self, picker: &mut RarestPiecePicker, block: &Block) -> (r: (
        Vec<InternalEvent>,
        Option<usize>,
    ))
        requires
            old(self).wf(),
            old(picker).wf(),
        ensures
            final(self).wf(),
            final(picker).wf(),
            old(self).written_spec(*final(self), *old(picker), *final(picker), *block, r.0@, r.1),
    {
        let mut events: Vec<InternalEvent> = Vec::new();
        let expected = match self.awaiting_write {
            Some(b) => b == *block,
            None => false,
        };
        if !expected {
            return (events, None);
        }
        self.awaiting_write = None;
        picker.remove_block(block);
        events.push(InternalEvent::BlockStored(*block));
        assert(events@ =~= seq![InternalEvent::BlockStored(*block)]);
        let p = block.piece_idx;
        proof {
            assert forall|q: int| 0 <= q < self.n() && #[trigger] self.committed@[q] implies self.complete(q) by {
                assert(old(self).complete(q));
                assert forall|k: int| 0 <= k < self.layout.num_blocks(q) implies #[trigger] self.got(q, k) by {
                    assert(old(self).got(q, k));
                }
            }
        }
        if p < self.layout.pieces && !self.committed[p] && self.is_complete(p) {
            proof {
                assert(old(self).ready(p as int)) by {
                    assert forall|k: int| 0 <= k < self.layout.num_blocks(p as int) implies #[trigger] old(self).got(p as int, k) by {
                        assert(self.got(p as int, k));
                    }
                }
            }
            (events, Some(p))
        } else {
            proof {
                if old(self).ready(p as int) {
                    assert forall|k: int| 0 <= k < self.layout.num_blocks(p as int) implies #[trigger] self.got(p as int, k) by {
                        assert(old(self).got(p as int, k));
                    }
                }
            }
            (events, None)
        }
    }

    /// What the digest check of piece `p` with digest `digest` does. A piece
    /// not ready is left alone. A match commits the piece, once; a mismatch
    /// resets the piece here and in the picker.
    pub open spec fn check_spec(
        &self,
        after: Self,
        k0: RarestPiecePicker,
        k1: RarestPiecePicker,
        p: int,
        digest: Seq<u8>,
        events: Seq<InternalEvent>,
    ) -> bool {
        if !self.ready(p) {
            events.len() == 0 && after == *self && k1.same_state(&k0)
        } else if digest == self.piece_hashes@[p]@ {
            &&& k1.same_state(&k0)
            &&& after == (DataCollector {
                committed: after.committed,
                acquired_pieces: (self.acquired_pieces + 1) as usize,
                ..*self
            })
            &&& after.committed@ == self.committed@.update(p, true)
            &&& events == if after.acquired_pieces == self.n() {
                seq![InternalEvent::PieceStored(p as usize), InternalEvent::DownloadComplete]
            } else {
                seq![InternalEvent::PieceStored(p as usize)]
            }
        } else {
            &&& events.len() == 0
            &&& after == (DataCollector { received: after.received, ..*self })
            &&& after.received@.len() == self.received@.len()
            &&& forall|j: int| 0 <= j < self.layout.num_blocks(p) ==> !#[trigger] after.got(p, j)
            &&& forall|q: int|
                0 <= q < self.n() && q != p ==> #[trigger] after.received@[q] == self.received@[q]
            &&& k1.wf()
            &&& (forall|j: int|
                0 <= j < k0.layout.num_blocks(p) ==> #[trigger] k1.status(p, j)
                    == crate::picker::BlockStatus::Unrequested)
            &&& k1.others_unchanged(&k0, p)
        }
    }

    /// Checks piece `piece_idx` against the digest of its bytes as read back.
    pub fn piece_hash_checked(
        &mut self,
        picker: &mut RarestPiecePicker,
        piece_idx: usize,
        digest: &Vec<u8>,
    ) -> (events: Vec<InternalEvent>)
        requires
            old(self).wf(),
            old(picker).wf(),
            old(picker).layout == old(self).layout,
        ensures
            final(self).wf(),
            final(picker).wf(),
            final(picker).layout == final(self).layout,
            final(self).acquired_pieces >= old(self).acquired_pieces,
            final(self).acquired_pieces <= final(self).n(),
            old(self).check_spec(*final(self), *old(picker), *final(picker), piece_idx as int, digest@, events@),
    {
        proof { lemma_count_bound(self.committed@); }
        let mut events: Vec<InternalEvent> = Vec::new();
        if piece_idx >= self.layout.pieces || self.committed[piece_idx] || !self.is_complete(piece_idx) {
            return events;
        }
        let ghost before = *self;
        let ghost p = piece_idx as int;
        if bytes_equal(digest, &self.piece_hashes[piece_idx]) {
            proof { lemma_count_set(self.committed@, p); lemma_count_bound(self.committed@.update(p, true)); }
            self.committed.set(piece_idx, true);
            self.acquired_pieces = self.acquired_pieces + 1;
            events.push(InternalEvent::PieceStored(piece_idx));
            if self.acquired_pieces == self.layout.pieces {
                events.push(InternalEvent::DownloadComplete);
            }
            proof {
                assert forall|q: int| 0 <= q < self.n() && #[trigger] self.committed@[q] implies self.complete(q) by {
                    if q != p { assert(before.committed@[q]); }
                    assert(before.complete(q));
                    assert forall|k: int| 0 <= k < self.layout.num_blocks(q) implies #[trigger] self.got(q, k) by {
                        assert(before.got(q, k));
                    }
                }
                if self.acquired_pieces == self.n() {
                    assert(events@ =~= seq![InternalEvent::PieceStored(piece_idx), InternalEvent::DownloadComplete]);
                } else {
                    assert(events@ =~= seq![InternalEvent::PieceStored(piece_idx)]);
                }
            }
        } else {
            picker.reinsert_piece(piece_idx);
            let nb = self.layout.blocks_in_piece(piece_idx);
            self.received.set(piece_idx, vec![false; nb]);
            proof {
                assert forall|q: int| 0 <= q < self.n() && #[trigger] self.committed@[q] implies self.complete(q) by {
                    assert(q != p);
                    assert(before.complete(q));
                    assert(self.received@[q] == before.received@[q]);
                    assert forall|k: int| 0 <= k < self.layout.num_blocks(q) implies #[trigger] self.got(q, k) by {
                        assert(before.got(q, k));
                    }
                }
                assert forall|q: int| 0 <= q < self.n() implies (#[trigger] self.received@[q])@.len() == self.layout.num_blocks(q) by {
                    if q != p { assert(self.received@[q] == before.received@[q]); }
                }
            }
        }
        events
    }

    /// Checks piece `piece_idx` against the bytes read back from the file.
    pub fn piece_read(&mut self, picker: &mut RarestPiecePicker, piece_idx: usize, bytes: &Vec<u8>) -> (events:
        Vec<InternalEvent>)
        requires
            old(self).wf(),
            old(picker).wf(),
            old(picker).layout == old(self).layout,
        ensures
            final(self).wf(),
            final(picker).wf(),
            final(picker).layout == final(self).layout,
            final(self).acquired_pieces >= old(self).acquired_pieces,
            final(self).acquired_pieces <= final(self).n(),
            old(self).check_spec(
                *final(self),
                *old(picker),
                *final(picker),
                piece_idx as int,
                sha1_of(bytes@),
                events@,
            ),
    {
        let digest = sha1_digest(bytes);
        self.piece_hash_checked(picker, piece_idx, &digest)
    }
}

proof fn lemma_count_zero(s: Seq<bool>, k: int)
    requires
        0 <= k <= s.len(),
        forall|q: int| 0 <= q < s.len() ==> !#[trigger] s[q],
    ensures
        count_true(s.subrange(0, k)) == 0,
    decreases k,
{
    if k > 0 {
        assert(s.subrange(0, k).drop_last() =~= s.subrange(0, k - 1));
        lemma_count_zero(s, k - 1);
    }
}

/// Whether two byte strings are equal.
pub fn bytes_equal(a: &Vec<u8>, b: &Vec<u8>) -> (r: bool)
    ensures
        r == (a@ == b@),
{
    if a.len() != b.len() {
        return false;
    }
    let mut i: usize = 0;
    while i < a.len()
        invariant
            a@.len() == b@.len(),
            i <= a@.len(),
            forall|k: int| 0 <= k < i ==> a@[k] == b@[k],
        decreases a@.len() - i,
    {
        if a[i] != b[i] {
            return false;
        }
        i = i + 1;
    }
    assert(a@ =~= b@);
    true
}

/// A block is announced as stored only on the report that its write
/// completed, and only for the block that `accept` handed out for writing.
pub proof fn lemma_stored_only_after_write(
    before: DataCollector,
    after: DataCollector,
    k0: RarestPiecePicker,
    k1: RarestPiecePicker,
    reported: Block,
    events: Seq<InternalEvent>,
    ready: Option<usize>,
    stored: Block,
)
    requires
        before.written_spec(after, k0, k1, reported, events, ready),
        events.contains(InternalEvent::BlockStored(stored)),
    ensures
        stored == reported,
        before.awaiting_write == Some(stored),
{
    let k = choose|k: int| 0 <= k < events.len() && events[k] == InternalEvent::BlockStored(stored);
}

/// A piece is announced as stored only when the digest of its bytes matches
/// the expected one, and only on the check that commits it.
pub proof fn lemma_stored_piece_verified(
    before: DataCollector,
    after: DataCollector,
    k0: RarestPiecePicker,
    k1: RarestPiecePicker,
    p: int,
    digest: Seq<u8>,
    events: Seq<InternalEvent>,
    q: usize,
)
    requires
        before.wf(),
        before.check_spec(after, k0, k1, p, digest, events),
        events.contains(InternalEvent::PieceStored(q)),
    ensures
        q == p,
        digest == before.piece_hashes@[p]@,
        !before.committed@[p],
        after.committed@[p],
{
    let k = choose|k: int| 0 <= k < events.len() && events[k] == InternalEvent::PieceStored(q);
    assert(before.ready(p));
}

/// A committed piece is never checked again: a later check publishes nothing
/// and changes nothing, so each piece is committed at most once.
pub proof fn lemma_committed_piece_final(
    before: DataCollector,
    after: DataCollector,
    k0: RarestPiecePicker,
    k1: RarestPiecePicker,
    p: int,
    digest: Seq<u8>,
    events: Seq<InternalEvent>,
)
    requires
        before.wf(),
        0 <= p < before.n(),
        before.committed@[p],
        before.check_spec(after, k0, k1, p, digest, events),
    ensures
        events.len() == 0,
        after == before,
{
}

proof fn lemma_count_full(s: Seq<bool>)
    requires
        count_true(s) == s.len(),
    ensures
        forall|i: int| 0 <= i < s.len() ==> #[trigger] s[i],
    decreases s.len(),
{
    if s.len() > 0 {
        lemma_count_bound(s.drop_last());
        lemma_count_full(s.drop_last());
        assert forall|i: int| 0 <= i < s.len() implies #[trigger] s[i] by {
            if i < s.len() - 1 {
                assert(s.drop_last()[i] == s[i]);
            }
        }
    }
}

/// The download is announced complete only on the check that commits the
/// last uncommitted piece: afterwards every piece is committed.
pub proof fn lemma_complete_means_all_committed(
    before: DataCollector,
    after: DataCollector,
    k0: RarestPiecePicker,
    k1: RarestPiecePicker,
    p: int,
    digest: Seq<u8>,
    events: Seq<InternalEvent>,
)
    requires
        before.wf(),
        after.wf(),
        before.check_spec(after, k0, k1, p, digest, events),
        events.contains(InternalEvent::DownloadComplete),
    ensures
        after.acquired_pieces == after.n(),
        forall|q: int| 0 <= q < after.n() ==> #[trigger] after.committed@[q],
{
    let k = choose|k: int| 0 <= k < events.len() && events[k] == InternalEvent::DownloadComplete;
    assert(before.ready(p));
    lemma_count_full(after.committed@);
}

/// Delivering a block a second time has no effect: it is dropped, nothing is
/// written and nothing is published.
pub proof fn lemma_duplicate_delivery_ignored(
    first: DataCollector,
    once: DataCollector,
    twice: DataCollector,
    d: DataBlock,
    r1: Option<Block>,
    r2: Option<Block>,
)
    requires
        first.wf(),
        first.accept_spec(once, d, r1),
        once.accept_spec(twice, d, r2),
    ensures
        r2 is None,
        twice == once,
{
    if let Some(j) = first.layout.index_of(d.block_spec()) {
        let p = d.piece_idx as int;
        if !first.got(p, j) {
            assert(once.got(p, j));
        }
    }
}

} // verus!
