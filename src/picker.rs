use vstd::prelude::*;
use crate::bitfield::Bitfield;
use crate::layout::{Block, TorrentLayout};
use rand::Rng;
use vstd::arithmetic::div_mod::lemma_div_multiples_vanish;
use vstd::arithmetic::mul::lemma_mul_inequality;

verus! {

/// Score every piece starts with.
pub const PIECE_BASE_SCORE: i128 = 1000;
/// Applied once a piece has had blocks picked: favours finishing started pieces.
pub const SOME_BLOCKS_PICKED_BONUS: i128 = -1000;
/// Applied once every block of a piece is in transfer or written: 2^68, above
/// the spread of any two availability counts.
pub const ALL_BLOCKS_PICKED_PENALTY: i128 = 0x10_0000_0000_0000_0000;
/// Applied once every block of a piece is written: 2^72, above any score of a
/// piece that is not.
pub const ALL_BLOCKS_REMOVED_PENALTY: i128 = 0x100_0000_0000_0000_0000;

/// Where a block of a piece stands.
#[derive(Clone, Copy, Debug, PartialEq, Eq, Structural)]
pub enum BlockStatus {
    Unrequested,
    InTransfer,
    Removed,
}

/// The download state of one piece: one status per block, the number of
/// peers that advertise the piece, and the sticky states that shape its score.
pub struct PieceDownloadState {
    pub status: Vec<BlockStatus>,
    pub availability: i64,
    pub started: bool,
    pub all_in_transfer: bool,
    pub all_removed: bool,
}

pub open spec fn state_score(st: PieceDownloadState) -> int {
    PIECE_BASE_SCORE + st.availability + (if st.started { SOME_BLOCKS_PICKED_BONUS as int } else { 0 })
        + (if st.all_in_transfer { ALL_BLOCKS_PICKED_PENALTY as int } else { 0 }) + (
    if st.all_removed {
        ALL_BLOCKS_REMOVED_PENALTY as int
    } else {
        0
    })
}

impl PieceDownloadState {
    pub open spec fn has_status(&self, s: BlockStatus) -> bool {
        exists|j: int| 0 <= j < self.status@.len() && #[trigger] self.status@[j] == s
    }

    pub open spec fn wf(&self, blocks: int) -> bool {
        &&& self.status@.len() == blocks
        &&& self.all_removed <==> (forall|j: int|
            0 <= j < blocks ==> #[trigger] self.status@[j] == BlockStatus::Removed)
        &&& self.all_in_transfer ==> !self.has_status(BlockStatus::Unrequested)
    }

    /// A piece with every block unrequested and no sticky state.
    pub fn init(blocks: usize, availability: i64) -> (r: Self)
        requires
            blocks >= 1,
        ensures
            r.wf(blocks as int),
            forall|j: int| 0 <= j < blocks ==> #[trigger] r.status@[j] == BlockStatus::Unrequested,
            r.availability == availability,
            !r.started && !r.all_in_transfer && !r.all_removed,
    {
        let mut status: Vec<BlockStatus> = Vec::new();
        let mut j: usize = 0;
        while j < blocks
            invariant
                j <= blocks,
                status@.len() == j,
                forall|k: int| 0 <= k < j ==> #[trigger] status@[k] == BlockStatus::Unrequested,
            decreases blocks - j,
        {
            status.push(BlockStatus::Unrequested);
            j = j + 1;
        }
        assert(status@[0] == BlockStatus::Unrequested);
        PieceDownloadState {
            status,
            availability,
            started: false,
            all_in_transfer: false,
            all_removed: false,
        }
    }

    /// Whether every block of the piece has been written.
    pub fn all_blocks_removed(&self) -> (r: bool)
        ensures
            r == (forall|j: int|
                0 <= j < self.status@.len() ==> #[trigger] self.status@[j] == BlockStatus::Removed),
    {
        let mut j: usize = 0;
        while j < self.status.len()
            invariant
                j <= self.status@.len(),
                forall|k: int| 0 <= k < j ==> #[trigger] self.status@[k] == BlockStatus::Removed,
            decreases self.status@.len() - j,
        {
            if self.status[j] != BlockStatus::Removed {
                return false;
            }
            j = j + 1;
        }
        true
    }

    fn first_with(&self, s: BlockStatus) -> (r: Option<usize>)
        ensures
            match r {
                Some(j) => j < self.status@.len() && self.status@[j as int] == s,
                None => !self.has_status(s),
            },
    {
        let mut j: usize = 0;
        while j < self.status.len()
            invariant
                j <= self.status@.len(),
                forall|k: int| 0 <= k < j ==> #[trigger] self.status@[k] != s,
            decreases self.status@.len() - j,
        {
            if self.status[j] == s {
                return Some(j);
            }
            j = j + 1;
        }
        None
    }
}

/// Draws a uniformly random index below `n`.
/// Relies on rand's `Rng::gen_range`, which returns a value of the range and
/// panics only on an empty one.
#[verifier::external_body]
pub(crate) fn random_below(n: usize) -> (r: usize)
    requires
        n > 0,
    ensures
        r < n,
{
    rand::thread_rng().gen_range(0..n)
}

/// The block index a locator's offset stands for.
pub open spec fn bidx(layout: TorrentLayout, b: Block) -> int {
    b.offset as int / layout.usual_block_length as int
}

/// Shared block selection: rarest pieces first, started pieces before fresh
/// ones, and duplicate requests once every remaining block is in transfer.
pub struct RarestPiecePicker {
    pub layout: TorrentLayout,
    /// (piece index, score), weakly sorted by ascending score.
    pub priority_score_sorted_pieces: Vec<(usize, i128)>,
    /// For each piece, its position in `priority_score_sorted_pieces`.
    pub piece_lookup_table: Vec<usize>,
    pub piece_download_state: Vec<PieceDownloadState>,
}

impl RarestPiecePicker {
    pub open spec fn n(&self) -> int {
        self.layout.pieces as int
    }

    pub open spec fn table(&self) -> Seq<(usize, i128)> {
        self.priority_score_sorted_pieces@
    }

    pub open spec fn lookup(&self) -> Seq<usize> {
        self.piece_lookup_table@
    }

    pub open spec fn st(&self, p: int) -> PieceDownloadState {
        self.piece_download_state@[p]
    }

    pub open spec fn status(&self, p: int, j: int) -> BlockStatus {
        self.piece_download_state@[p].status@[j]
    }

    /// The table and the lookup are inverse permutations of the pieces.
    pub open spec fn perm_ok(&self) -> bool {
        &&& self.table().len() == self.n()
        &&& self.lookup().len() == self.n()
        &&& forall|k: int|
            0 <= k < self.n() ==> (#[trigger] self.table()[k]).0 < self.n() && self.lookup()[
            self.table()[k].0 as int] == k
        &&& forall|p: int|
            0 <= p < self.n() ==> #[trigger] self.lookup()[p] < self.n() && self.table()[
            self.lookup()[p] as int].0 == p
    }

    pub open spec fn states_ok(&self) -> bool {
        &&& self.layout.wf()
        &&& self.piece_download_state@.len() == self.n()
        &&& forall|p: int|
            0 <= p < self.n() ==> (#[trigger] self.piece_download_state@[p]).wf(
                self.layout.num_blocks(p),
            )
    }

    pub open spec fn scores_ok(&self) -> bool {
        forall|k: int|
            0 <= k < self.n() ==> (#[trigger] self.table()[k]).1 == state_score(
                self.st(self.table()[k].0 as int),
            )
    }

    pub open spec fn sorted(&self) -> bool {
        forall|a: int, b: int|
            0 <= a < b < self.n() ==> (#[trigger] self.table()[a]).1 <= (#[trigger] self.table()[b]).1
    }

    pub open spec fn wf(&self) -> bool {
        &&& self.states_ok()
        &&& self.perm_ok()
        &&& self.scores_ok()
        &&& self.sorted()
    }

    /// Unrequested blocks of piece `p` (by block index).
    pub open spec fn unrequested(&self, p: int) -> Set<int> {
        Set::new(|j: int| 0 <= j < self.layout.num_blocks(p) && self.status(p, j) == BlockStatus::Unrequested)
    }

    /// Blocks of piece `p` that are requested from some peer and not yet written.
    pub open spec fn in_transfer(&self, p: int) -> Set<int> {
        Set::new(|j: int| 0 <= j < self.layout.num_blocks(p) && self.status(p, j) == BlockStatus::InTransfer)
    }

    /// Blocks of piece `p` written since the piece was last (re)initialised.
    pub open spec fn removed(&self, p: int) -> Set<int> {
        Set::new(|j: int| 0 <= j < self.layout.num_blocks(p) && self.status(p, j) == BlockStatus::Removed)
    }

    /// All blocks of piece `p`.
    pub open spec fn all_blocks(&self, p: int) -> Set<int> {
        Set::new(|j: int| 0 <= j < self.layout.num_blocks(p))
    }

    /// The block index a locator names in this layout, if any.
    pub open spec fn index_of(&self, b: Block) -> Option<int> {
        self.layout.index_of(b)
    }

    /// The block at table position `k` may be drawn from for this peer.
    pub open spec fn candidate(&self, peer: &Bitfield, k: int) -> bool {
        &&& 0 <= k < self.n()
        &&& !self.st(self.table()[k].0 as int).all_removed
        &&& peer.has(self.table()[k].0 as int)
    }

    /// Everything but piece `p`'s state is as in `other`.
    pub open spec fn others_unchanged(&self, other: &Self, p: int) -> bool {
        &&& self.layout == other.layout
        &&& self.piece_download_state@.len() == other.piece_download_state@.len()
        &&& forall|q: int|
            0 <= q < self.n() && q != p ==> #[trigger] self.piece_download_state@[q]
                == other.piece_download_state@[q]
    }

    pub fn init(layout: TorrentLayout) -> (r: Self)
        requires
            layout.wf(),
        ensures
            r.wf(),
            r.layout == layout,
            forall|p: int, j: int|
                0 <= p < r.n() && 0 <= j < layout.num_blocks(p) ==> #[trigger] r.status(p, j)
                    == BlockStatus::Unrequested,
            forall|p: int|
                0 <= p < r.n() ==> #[trigger] r.st(p).availability == 0 && !r.st(p).started
                    && !r.st(p).all_in_transfer && !r.st(p).all_removed,
    {
        let n = layout.pieces;
        let mut table: Vec<(usize, i128)> = Vec::new();
        let mut lookup: Vec<usize> = Vec::new();
        let mut states: Vec<PieceDownloadState> = Vec::new();
        let mut p: usize = 0;
        while p < n
            invariant
                layout.wf(),
                n == layout.pieces,
                p <= n,
                table@.len() == p,
                lookup@.len() == p,
                states@.len() == p,
                forall|k: int| 0 <= k < p ==> #[trigger] table@[k] == (k as usize, PIECE_BASE_SCORE),
                forall|k: int| 0 <= k < p ==> #[trigger] lookup@[k] == k,
                forall|k: int|
                    0 <= k < p ==> (#[trigger] states@[k]).wf(layout.num_blocks(k))
                        && states@[k].availability == 0 && !states@[k].started
                        && !states@[k].all_in_transfer && !states@[k].all_removed
                        && forall|j: int|
                        0 <= j < layout.num_blocks(k) ==> #[trigger] states@[k].status@[j]
                            == BlockStatus::Unrequested,
            decreases n - p,
        {
            table.push((p, PIECE_BASE_SCORE));
            lookup.push(p);
            let blocks = layout.blocks_in_piece(p);
            states.push(PieceDownloadState::init(blocks, 0));
            p = p + 1;
        }
        RarestPiecePicker {
            layout,
            priority_score_sorted_pieces: table,
            piece_lookup_table: lookup,
            piece_download_state: states,
        }
    }
    /// The pieces other than `p` keep their order in the table.
    pub open spec fn keeps_others_order(&self, after: &Self, p: int) -> bool {
        after.table().remove(after.lookup()[p] as int) == self.table().remove(self.lookup()[p] as int)
    }

    /// Only piece `p` moved in the table, and it passed no piece of its new score.
    pub open spec fn moved_only(&self, after: &Self, p: int) -> bool {
        let (i0, i1) = (self.lookup()[p] as int, after.lookup()[p] as int);
        let base = self.table().remove(i0);
        &&& self.keeps_others_order(after, p)
        &&& forall|k: int|
            (i0 <= k < i1 || i1 <= k < i0) ==> (#[trigger] base[k]).1 != after.table()[i1].1
    }

    /// Well formed, but for the score of piece `p`, which is `delta` short.
    pub open spec fn wf_pending(&self, p: int, delta: int) -> bool {
        &&& self.states_ok()
        &&& self.perm_ok()
        &&& self.sorted()
        &&& 0 <= p < self.n()
        &&& forall|k: int|
            0 <= k < self.n() && (#[trigger] self.table()[k]).0 != p ==> self.table()[k].1
                == state_score(self.st(self.table()[k].0 as int))
        &&& self.table()[self.lookup()[p] as int].1 + delta == state_score(self.st(p))
    }

    proof fn lemma_score_bounds(st: PieceDownloadState, blocks: int)
        requires
            st.wf(blocks),
        ensures
            -0x1000_0000_0000_0000_0000 <= state_score(st) <= 0x1000_0000_0000_0000_0000,
    {
    }

    /// Moves piece `piece_idx` to its place after its score changed by `update`.
    fn update_priority(&mut self, piece_idx: usize, update: i128)
        requires
            old(self).wf_pending(piece_idx as int, update as int),
        ensures
            final(self).wf(),
            final(self).layout == old(self).layout,
            final(self).piece_download_state == old(self).piece_download_state,
            old(self).moved_only(final(self), piece_idx as int),
    {
        let ghost p = piece_idx as int;
        let ghost i0 = old(self).lookup()[p] as int;
        let ghost base = old(self).table().remove(i0);
        proof {
            old(self).table().remove_ensures(i0);
        }
        let n = self.priority_score_sorted_pieces.len();
        proof {
            Self::lemma_score_bounds(self.st(p), self.layout.num_blocks(p));
            let k = self.lookup()[p] as int;
            Self::lemma_score_bounds(self.st(p), self.layout.num_blocks(p));
        }
        let mut i = self.piece_lookup_table[piece_idx];
        let old_score = self.priority_score_sorted_pieces[i].1;
        let new_score = old_score + update;
        self.priority_score_sorted_pieces[i] = (piece_idx, new_score);
        assert(self.table() =~= base.insert(i as int, (piece_idx, new_score)));
        if update > 0 {
            while i + 1 < n && self.priority_score_sorted_pieces[i + 1].1 < new_score
                invariant
                    n == self.n(),
                    self.states_ok(),
                    self.perm_ok(),
                    self.scores_ok(),
                    self.layout == old(self).layout,
                    self.piece_download_state == old(self).piece_download_state,
                    0 <= p < n,
                    i < n,
                    self.table()[i as int] == (piece_idx, new_score),
                    self.lookup()[p] == i,
                    forall|a: int, b: int|
                        0 <= a < b < n && a != i && b != i ==> (#[trigger] self.table()[a]).1
                            <= (#[trigger] self.table()[b]).1,
                    forall|a: int| 0 <= a < i ==> (#[trigger] self.table()[a]).1 <= new_score,
                    i0 <= i,
                    i0 == old(self).lookup()[p],
                    base == old(self).table().remove(i0),
                    self.table() == base.insert(i as int, (piece_idx, new_score)),
                    base.len() == n - 1,
                    forall|k: int| i0 <= k < i ==> (#[trigger] base[k]).1 < new_score,
                decreases n - i,
            {
                let ghost t0 = self.table();
                let next = self.priority_score_sorted_pieces[i + 1];
                self.priority_score_sorted_pieces[i] = next;
                self.priority_score_sorted_pieces[i + 1] = (piece_idx, new_score);
                self.piece_lookup_table[next.0] = i;
                self.piece_lookup_table[piece_idx] = i + 1;
                proof {
                    base.insert_ensures(i as int, (piece_idx, new_score));
                    base.insert_ensures(i + 1, (piece_idx, new_score));
                    assert(t0[i + 1] == next);
                    assert(base[i as int] == next);
                    assert(self.table() =~= base.insert(i + 1, (piece_idx, new_score)));
                }
                i = i + 1;
            }
        } else {
            while i > 0 && self.priority_score_sorted_pieces[i - 1].1 > new_score
                invariant
                    n == self.n(),
                    self.states_ok(),
                    self.perm_ok(),
                    self.scores_ok(),
                    self.layout == old(self).layout,
                    self.piece_download_state == old(self).piece_download_state,
                    0 <= p < n,
                    i < n,
                    self.table()[i as int] == (piece_idx, new_score),
                    self.lookup()[p] == i,
                    forall|a: int, b: int|
                        0 <= a < b < n && a != i && b != i ==> (#[trigger] self.table()[a]).1
                            <= (#[trigger] self.table()[b]).1,
                    forall|b: int| i < b < n ==> new_score <= (#[trigger] self.table()[b]).1,
                    i <= i0,
                    i0 == old(self).lookup()[p],
                    base == old(self).table().remove(i0),
                    self.table() == base.insert(i as int, (piece_idx, new_score)),
                    base.len() == n - 1,
                    forall|k: int| i <= k < i0 ==> (#[trigger] base[k]).1 > new_score,
                decreases i,
            {
                let ghost t0 = self.table();
                let prev = self.priority_score_sorted_pieces[i - 1];
                self.priority_score_sorted_pieces[i] = prev;
                self.priority_score_sorted_pieces[i - 1] = (piece_idx, new_score);
                self.piece_lookup_table[prev.0] = i;
                self.piece_lookup_table[piece_idx] = i - 1;
                proof {
                    base.insert_ensures(i as int, (piece_idx, new_score));
                    base.insert_ensures(i - 1, (piece_idx, new_score));
                    assert(t0[i - 1] == prev);
                    assert(base[i - 1] == prev);
                    assert(self.table() =~= base.insert(i - 1, (piece_idx, new_score)));
                }
                i = i - 1;
            }
        }
        proof {
            assert(self.table().remove(i as int) =~= base);
        }
    }

    proof fn lemma_block_fits(layout: TorrentLayout, q: int, j: int)
        requires
            layout.wf(),
            0 <= j < layout.num_blocks(q),
        ensures
            j * layout.usual_block_length + layout.block_len(q, j) <= layout.piece_len(q),
            layout.block_len(q, j) > 0,
            (j * layout.usual_block_length) / (layout.usual_block_length as int) == j,
            layout.block_at(q, j).offset as int / (layout.usual_block_length as int) == j,
    {
        let bl = layout.usual_block_length as int;
        let nb = layout.num_blocks(q);
        lemma_mul_inequality(j, nb - 1, bl);
        if j < nb - 1 {
            lemma_mul_inequality(j + 1, nb - 1, bl);
            assert((j + 1) * bl == j * bl + bl) by (nonlinear_arith);
        }
        assert(j * bl == bl * j) by (nonlinear_arith);
        lemma_div_multiples_vanish(j, bl);
    }

    /// Position in the table of the first piece that may be drawn from for this peer.
    fn first_candidate(&self, peer_bitfield: &Bitfield) -> (r: Option<usize>)
        requires
            self.wf(),
        ensures
            match r {
                Some(k) => self.candidate(peer_bitfield, k as int) && forall|k2: int|
                    0 <= k2 < k ==> !#[trigger] self.candidate(peer_bitfield, k2),
                None => forall|k2: int| !#[trigger] self.candidate(peer_bitfield, k2),
            },
    {
        let n = self.priority_score_sorted_pieces.len();
        let mut k: usize = 0;
        while k < n
            invariant
                self.wf(),
                n == self.n(),
                k <= n,
                forall|k2: int| 0 <= k2 < k ==> !#[trigger] self.candidate(peer_bitfield, k2),
            decreases n - k,
        {
            let q = self.priority_score_sorted_pieces[k].0;
            if !self.piece_download_state[q].all_removed && peer_bitfield.has_piece(q) {
                return Some(k);
            }
            k = k + 1;
        }
        None
    }

    /// Moves up to `num` unrequested blocks of piece `q`, lowest first, into transfer.
    fn draw_unrequested(&mut self, q: usize, num: usize) -> (r: Vec<Block>)
        requires
            old(self).wf(),
            q < old(self).n(),
            old(self).st(q as int).has_status(BlockStatus::Unrequested),
            num > 0,
        ensures
            final(self).wf(),
            final(self).others_unchanged(old(self), q as int),
            final(self).priority_score_sorted_pieces == old(self).priority_score_sorted_pieces,
            final(self).piece_lookup_table == old(self).piece_lookup_table,
            final(self).st(q as int).availability == old(self).st(q as int).availability,
            final(self).st(q as int).started == old(self).st(q as int).started,
            final(self).st(q as int).all_in_transfer == old(self).st(q as int).all_in_transfer,
            final(self).st(q as int).all_removed == old(self).st(q as int).all_removed,
            old(self).picked_from(*final(self), q as int, r@, num as int),
    {
        let ghost old_self = *self;
        let ghost qi = q as int;
        let nb = self.layout.blocks_in_piece(q);
        let bl = self.layout.usual_block_length;
        let mut r: Vec<Block> = Vec::new();
        let mut j: usize = 0;
        while j < nb && r.len() < num
            invariant
                old_self.wf(),
                qi == q,
                old_self.st(qi).has_status(BlockStatus::Unrequested),
                self.layout == old_self.layout,
                self.layout.wf(),
                nb == self.layout.num_blocks(qi),
                bl == self.layout.usual_block_length,
                q < self.n(),
                j <= nb,
                r@.len() <= num,
                self.piece_download_state@.len() == old_self.piece_download_state@.len(),
                self.priority_score_sorted_pieces == old_self.priority_score_sorted_pieces,
                self.piece_lookup_table == old_self.piece_lookup_table,
                forall|p: int|
                    0 <= p < self.n() && p != qi ==> #[trigger] self.piece_download_state@[p]
                        == old_self.piece_download_state@[p],
                self.st(qi).availability == old_self.st(qi).availability,
                self.st(qi).started == old_self.st(qi).started,
                self.st(qi).all_in_transfer == old_self.st(qi).all_in_transfer,
                self.st(qi).all_removed == old_self.st(qi).all_removed,
                self.st(qi).status@.len() == nb,
                forall|k: int| j <= k < nb ==> #[trigger] self.status(qi, k) == old_self.status(qi, k),
                forall|k: int|
                    0 <= k < j ==> #[trigger] self.status(qi, k) == if old_self.status(qi, k)
                        == BlockStatus::Unrequested {
                        BlockStatus::InTransfer
                    } else {
                        old_self.status(qi, k)
                    },
                forall|i: int|
                    0 <= i < r@.len() ==> #[trigger] r@[i] == self.layout.block_at(qi, bidx(self.layout, r@[i]))
                        && 0 <= bidx(self.layout, r@[i]) < j && old_self.status(qi, bidx(self.layout, r@[i]))
                        == BlockStatus::Unrequested,
                forall|a: int, b: int|
                    0 <= a < b < r@.len() ==> bidx(self.layout, #[trigger] r@[a]) < bidx(self.layout, #[trigger] r@[b]),
                forall|k: int|
                    0 <= k < j && old_self.status(qi, k) == BlockStatus::Unrequested ==> exists|i: int|
                        0 <= i < r@.len() && #[trigger] bidx(self.layout, r@[i]) == k,
            decreases nb - j,
        {
            let ghost prev = *self;
            if self.piece_download_state[q].status[j] == BlockStatus::Unrequested {
                self.piece_download_state[q].status[j] = BlockStatus::InTransfer;
                assert(self.piece_download_state@[qi].status@ =~= prev.piece_download_state@[qi].status@.update(
                    j as int, BlockStatus::InTransfer));
                assert(self.layout == prev.layout);
                assert forall|k: int| 0 <= k < nb && k != j implies #[trigger] self.status(qi, k) == prev.status(qi, k) by {}
                assert(self.status(qi, j as int) == BlockStatus::InTransfer);
                proof {
                    Self::lemma_block_fits(self.layout, qi, j as int);
                    lemma_mul_inequality(j as int, nb as int, bl as int);
                }
                let len = self.layout.block_length(q, j);
                let b = Block::new(q, j * bl, len);
                let ghost before = r@;
                r.push(b);
                proof {
                    assert(prev.status(qi, j as int) == old_self.status(qi, j as int));
                    assert(old_self.status(qi, j as int) == BlockStatus::Unrequested);
                    assert(b == self.layout.block_at(qi, j as int));
                    assert(bidx(self.layout, r@[r@.len() - 1]) == j);
                    assert forall|k: int|
                        0 <= k < j + 1 && old_self.status(qi, k) == BlockStatus::Unrequested implies exists|i: int|
                        0 <= i < r@.len() && #[trigger] bidx(self.layout, r@[i]) == k by {
                        if k == j {
                            assert(bidx(self.layout, r@[r@.len() - 1]) == k);
                        } else {
                            assert(exists|i: int| 0 <= i < before.len() && #[trigger] bidx(self.layout, before[i]) == k);
                            let i = choose|i: int| 0 <= i < before.len() && #[trigger] bidx(self.layout, before[i]) == k;
                            assert(r@[i] == before[i]);
                        }
                    }
                }
            }
            j = j + 1;
        }
        proof {
            let st = self.st(qi);
            if st.all_removed {
                assert(old_self.st(qi).all_removed);
                let k = choose|k: int| 0 <= k < old_self.st(qi).status@.len() && #[trigger] old_self.st(qi).status@[k] == BlockStatus::Unrequested;
                assert(old_self.st(qi).status@[k] == BlockStatus::Removed);
            }
            assert forall|k: int| 0 <= k < nb implies #[trigger] st.status@[k] == BlockStatus::Removed
                || !st.all_removed by {}
            if !st.all_removed {
                let k = choose|k: int| 0 <= k < old_self.st(qi).status@.len() && #[trigger] old_self.st(qi).status@[k] == BlockStatus::Unrequested;
                assert(old_self.status(qi, k) == BlockStatus::Unrequested);
                if k < j {
                    assert(self.status(qi, k) == BlockStatus::InTransfer);
                    assert(st.status@[k] == BlockStatus::InTransfer);
                } else {
                    assert(self.status(qi, k) == BlockStatus::Unrequested);
                    assert(st.status@[k] == BlockStatus::Unrequested);
                }
            }
            assert(old_self.st(qi).wf(nb as int));
            assert(!old_self.st(qi).all_in_transfer);
            assert(st.wf(nb as int));
            let fin = *self;
            assert(1 <= r@.len()) by {
                let k = choose|k: int| 0 <= k < old_self.st(qi).status@.len() && #[trigger] old_self.st(qi).status@[k] == BlockStatus::Unrequested;
                assert(old_self.status(qi, k) == BlockStatus::Unrequested);
                if k >= j {
                    assert(r@.len() >= num);
                } else {
                    let i = choose|i: int| 0 <= i < r@.len() && #[trigger] bidx(self.layout, r@[i]) == k;
                }
            }
            assert forall|k: int|
                0 <= k < nb && (forall|i: int| 0 <= i < r@.len() ==> bidx(old_self.layout, #[trigger] r@[i]) != k)
                implies #[trigger] fin.status(qi, k) == old_self.status(qi, k) by {
                if k < j && old_self.status(qi, k) == BlockStatus::Unrequested {
                    let i = choose|i: int| 0 <= i < r@.len() && #[trigger] bidx(self.layout, r@[i]) == k;
                    assert(bidx(old_self.layout, r@[i]) != k);
                }
            }
            assert forall|k: int, i: int|
                0 <= k < nb && #[trigger] fin.status(qi, k) == BlockStatus::Unrequested && 0 <= i < r@.len()
                implies bidx(old_self.layout, #[trigger] r@[i]) < k by {
                if k < j {
                    assert(fin.status(qi, k) != BlockStatus::Unrequested);
                }
            }
            if r@.len() < num {
                assert(j == nb);
                if fin.st(qi).has_status(BlockStatus::Unrequested) {
                    let k = choose|k: int| 0 <= k < fin.st(qi).status@.len() && #[trigger] fin.st(qi).status@[k] == BlockStatus::Unrequested;
                    assert(fin.status(qi, k) == BlockStatus::Unrequested);
                }
            }
            assert forall|p: int| 0 <= p < self.n() implies (#[trigger] self.piece_download_state@[p]).wf(
                self.layout.num_blocks(p)) by {
                if p != qi {
                    assert(self.st(p) == old_self.st(p));
                }
            }
            assert(self.states_ok());
            assert forall|k: int| 0 <= k < self.n() implies (#[trigger] self.table()[k]).1 == state_score(
                self.st(self.table()[k].0 as int)) by {
                assert(old_self.table()[k].1 == state_score(old_self.st(old_self.table()[k].0 as int)));
            }
        }
        r
    }

    /// `after` is `self` with blocks `r` of piece `q` drawn for a request of `num`:
    /// the lowest unrequested blocks, now in transfer, at most `num`, and fewer
    /// only when no unrequested block is left.
    pub open spec fn picked_from(&self, after: Self, q: int, r: Seq<Block>, num: int) -> bool {
        &&& 1 <= r.len() <= num
        &&& forall|i: int|
            0 <= i < r.len() ==> #[trigger] r[i] == self.layout.block_at(q, bidx(self.layout, r[i]))
                && 0 <= bidx(self.layout, r[i]) < self.layout.num_blocks(q)
                && self.status(q, bidx(self.layout, r[i])) == BlockStatus::Unrequested
                && after.status(q, bidx(self.layout, r[i])) == BlockStatus::InTransfer
        &&& forall|a: int, b: int|
            0 <= a < b < r.len() ==> bidx(self.layout, #[trigger] r[a]) < bidx(self.layout, #[trigger] r[b])
        &&& forall|k: int|
            0 <= k < self.layout.num_blocks(q) && (forall|i: int|
                0 <= i < r.len() ==> bidx(self.layout, #[trigger] r[i]) != k) ==> #[trigger] after.status(q, k)
                == self.status(q, k)
        &&& forall|k: int, i: int|
            0 <= k < self.layout.num_blocks(q) && #[trigger] after.status(q, k)
                == BlockStatus::Unrequested && 0 <= i < r.len() ==> bidx(self.layout, #[trigger] r[i]) < k
        &&& r.len() < num ==> !after.st(q).has_status(BlockStatus::Unrequested)
    }
    /// Nothing that selection depends on has changed.
    pub open spec fn same_state(&self, other: &Self) -> bool {
        &&& self.layout == other.layout
        &&& self.piece_download_state == other.piece_download_state
        &&& self.priority_score_sorted_pieces == other.priority_score_sorted_pieces
        &&& self.piece_lookup_table == other.piece_lookup_table
    }

    /// Only the availability of some pieces has changed.
    pub open spec fn only_availability_changed(&self, other: &Self) -> bool {
        &&& self.layout == other.layout
        &&& self.piece_download_state@.len() == other.piece_download_state@.len()
        &&& forall|p: int|
            0 <= p < self.n() ==> {
                let (a, b) = (#[trigger] self.piece_download_state@[p], other.piece_download_state@[p]);
                &&& a.status == b.status
                &&& a.started == b.started
                &&& a.all_in_transfer == b.all_in_transfer
                &&& a.all_removed == b.all_removed
            }
    }

    /// The outcome of `pick` when it draws from piece `q`: fresh blocks if the
    /// piece has unrequested ones, else one block already in transfer.
    pub open spec fn picked(&self, after: Self, q: int, r: Seq<Block>, num: int) -> bool {
        &&& after.others_unchanged(self, q)
        &&& after.st(q).availability == self.st(q).availability
        &&& if self.st(q).has_status(BlockStatus::Unrequested) {
            &&& self.picked_from(after, q, r, num)
            &&& self.keeps_others_order(&after, q)
            &&& after.st(q).started
            &&& after.st(q).all_in_transfer == !after.st(q).has_status(BlockStatus::Unrequested)
            &&& !after.st(q).all_removed
        } else {
            &&& r.len() == 1
            &&& r[0] == self.layout.block_at(q, bidx(self.layout, r[0]))
            &&& 0 <= bidx(self.layout, r[0]) < self.layout.num_blocks(q)
            &&& self.status(q, bidx(self.layout, r[0])) == BlockStatus::InTransfer
            &&& after.same_state(self)
        }
    }

    /// What `pick(peer, num)` returning `r` does: nothing when `num` is zero or
    /// no piece qualifies; else it draws from the first qualifying piece.
    pub open spec fn pick_spec(&self, after: Self, peer: &Bitfield, num: int, r: Seq<Block>) -> bool {
        &&& num == 0 || (forall|k: int| !#[trigger] self.candidate(peer, k)) ==> r.len() == 0
            && after.same_state(self)
        &&& forall|k0: int|
            num > 0 && #[trigger] self.candidate(peer, k0) && (forall|k: int|
                0 <= k < k0 ==> !#[trigger] self.candidate(peer, k)) ==> self.picked(
                after,
                self.table()[k0].0 as int,
                r,
                num,
            )
    }

    /// Picks a block of piece `q` that is already in transfer, at random.
    fn pick_in_transfer(&self, q: usize) -> (r: Block)
        requires
            self.wf(),
            q < self.n(),
            self.st(q as int).has_status(BlockStatus::InTransfer),
        ensures
            r == self.layout.block_at(q as int, bidx(self.layout, r)),
            0 <= bidx(self.layout, r) < self.layout.num_blocks(q as int),
            self.status(q as int, bidx(self.layout, r)) == BlockStatus::InTransfer,
    {
        let nb = self.layout.blocks_in_piece(q);
        let mut candidates: Vec<usize> = Vec::new();
        let mut j: usize = 0;
        while j < nb
            invariant
                self.wf(),
                q < self.n(),
                nb == self.layout.num_blocks(q as int),
                j <= nb,
                forall|i: int|
                    0 <= i < candidates@.len() ==> #[trigger] candidates@[i] < nb && self.status(
                        q as int,
                        candidates@[i] as int,
                    ) == BlockStatus::InTransfer,
                forall|k: int|
                    0 <= k < j && self.status(q as int, k) == BlockStatus::InTransfer ==> candidates@.len() > 0,
            decreases nb - j,
        {
            if self.piece_download_state[q].status[j] == BlockStatus::InTransfer {
                candidates.push(j);
            }
            j = j + 1;
        }
        proof {
            let k = choose|k: int| 0 <= k < self.st(q as int).status@.len() && #[trigger] self.st(q as int).status@[k] == BlockStatus::InTransfer;
            assert(self.status(q as int, k) == BlockStatus::InTransfer);
        }
        let c = candidates[random_below(candidates.len())];
        proof {
            Self::lemma_block_fits(self.layout, q as int, c as int);
            lemma_mul_inequality(c as int, nb as int, self.layout.usual_block_length as int);
        }
        let len = self.layout.block_length(q, c);
        Block::new(q, c * self.layout.usual_block_length, len)
    }

    /// Up to `num_of_blocks` blocks to request from a peer that advertises
    /// `peer_bitfield`, all of the first piece in the table that the peer has and
    /// that is not fully written.
    pub fn pick(&mut self, peer_bitfield: &Bitfield, num_of_blocks: usize) -> (r: Vec<Block>)
        requires
            old(self).wf(),
        ensures
            final(self).wf(),
            (forall|i: int| !peer_bitfield.has(i)) ==> r@.len() == 0,
            old(self).pick_spec(*final(self), peer_bitfield, num_of_blocks as int, r@),
    {
        if num_of_blocks == 0 {
            return Vec::new();
        }
        let found = self.first_candidate(peer_bitfield);
        match found {
            None => Vec::new(),
            Some(k) => {
                let q = self.priority_score_sorted_pieces[k].0;
                let ghost old_self = *self;
                let ghost qi = q as int;
                if self.piece_download_state[q].first_with(BlockStatus::Unrequested).is_some() {
                    let blocks = self.draw_unrequested(q, num_of_blocks);
                    let ghost drawn = *self;
                    if !self.piece_download_state[q].started {
                        self.piece_download_state[q].started = true;
                        proof {
                            assert(self.piece_download_state@[qi].wf(self.layout.num_blocks(qi)));
                            assert forall|p: int| 0 <= p < self.n() implies (#[trigger] self.piece_download_state@[p]).wf(
                                self.layout.num_blocks(p)) by {
                                if p != qi { assert(self.piece_download_state@[p] == drawn.piece_download_state@[p]); }
                            }
                            assert forall|i: int| 0 <= i < self.n() && (#[trigger] self.table()[i]).0 != qi implies self.table()[i].1
                                == state_score(self.st(self.table()[i].0 as int)) by {
                                assert(drawn.table()[i].1 == state_score(drawn.st(drawn.table()[i].0 as int)));
                            }
                            assert(drawn.table()[drawn.lookup()[qi] as int].1 == state_score(drawn.st(qi)));
                        }
                        self.update_priority(q, SOME_BLOCKS_PICKED_BONUS);
                    }
                    let ghost bonused = *self;
                    if self.piece_download_state[q].first_with(BlockStatus::Unrequested).is_none() {
                        self.piece_download_state[q].all_in_transfer = true;
                        proof {
                            assert(!bonused.st(qi).all_in_transfer);
                            assert(self.piece_download_state@[qi].wf(self.layout.num_blocks(qi)));
                            assert forall|p: int| 0 <= p < self.n() implies (#[trigger] self.piece_download_state@[p]).wf(
                                self.layout.num_blocks(p)) by {
                                if p != qi { assert(self.piece_download_state@[p] == bonused.piece_download_state@[p]); }
                            }
                            assert forall|i: int| 0 <= i < self.n() && (#[trigger] self.table()[i]).0 != qi implies self.table()[i].1
                                == state_score(self.st(self.table()[i].0 as int)) by {
                                assert(bonused.table()[i].1 == state_score(bonused.st(bonused.table()[i].0 as int)));
                            }
                            assert(bonused.table()[bonused.lookup()[qi] as int].1 == state_score(bonused.st(qi)));
                        }
                        self.update_priority(q, ALL_BLOCKS_PICKED_PENALTY);
                    }
                    proof {
                        assert(self.st(qi).status == drawn.st(qi).status);
                        assert forall|p: int| 0 <= p < self.n() && p != qi implies #[trigger] self.piece_download_state@[p]
                            == old_self.piece_download_state@[p] by {
                            assert(drawn.piece_download_state@[p] == old_self.piece_download_state@[p]);
                            assert(bonused.piece_download_state@[p] == drawn.piece_download_state@[p]);
                        }
                        assert forall|k2: int| 0 <= k2 < self.layout.num_blocks(qi) implies #[trigger] self.status(qi, k2) == drawn.status(qi, k2) by {}
                        assert(old_self.picked_from(drawn, qi, blocks@, num_of_blocks as int));
                        assert(old_self.picked_from(*self, qi, blocks@, num_of_blocks as int));
                        assert(!old_self.st(qi).all_removed);
                    }
                    blocks
                } else {
                    proof {
                        let st = self.st(qi);
                        assert(!st.all_removed);
                        let w = choose|w: int| !(0 <= w < self.layout.num_blocks(qi) ==> #[trigger] st.status@[w] == BlockStatus::Removed);
                        assert(st.status@[w] != BlockStatus::Unrequested);
                        assert(st.status@[w] == BlockStatus::InTransfer);
                    }
                    let b = self.pick_in_transfer(q);
                    let mut r: Vec<Block> = Vec::new();
                    r.push(b);
                    r
                }
            },
        }
    }
    /// What `remove_block(b)` does: a block still requested or unrequested
    /// becomes written; a piece with every block written gets its penalty.
    /// Anything else leaves the picker as it is.
    pub open spec fn removal(&self, after: Self, b: Block) -> bool {
        match self.index_of(b) {
            Some(j) => {
                let q = b.piece_idx as int;
                if self.status(q, j) == BlockStatus::Removed {
                    after.same_state(self)
                } else {
                    &&& after.others_unchanged(self, q)
                    &&& after.st(q).status@ == self.st(q).status@.update(j, BlockStatus::Removed)
                    &&& after.st(q).availability == self.st(q).availability
                    &&& after.st(q).started == self.st(q).started
                    &&& after.st(q).all_in_transfer == self.st(q).all_in_transfer
                    &&& self.moved_only(&after, q)
                }
            },
            None => after.same_state(self),
        }
    }

    /// Marks a block as written: it can no longer be picked.
    pub fn remove_block(&mut self, block: &Block)
        requires
            old(self).wf(),
        ensures
            final(self).wf(),
            old(self).removal(*final(self), *block),
    {
        let located = self.layout.locate(block);
        match located {
            None => {},
            Some(j) => {
                let q = block.piece_idx;
                if self.piece_download_state[q].status[j] != BlockStatus::Removed {
                    let ghost before = *self;
                    let ghost qi = q as int;
                    self.piece_download_state[q].status[j] = BlockStatus::Removed;
                    let ghost marked = *self;
                    assert(self.piece_download_state@[qi].status@ =~= before.piece_download_state@[qi].status@.update(
                        j as int, BlockStatus::Removed));
                    let all_gone = self.piece_download_state[q].all_blocks_removed();
                    proof {
                        let st = self.st(qi);
                        assert(!before.st(qi).all_removed);
                        if before.st(qi).all_in_transfer {
                            assert forall|k: int| 0 <= k < st.status@.len() implies #[trigger] st.status@[k]
                                != BlockStatus::Unrequested by {
                                if k != j { assert(st.status@[k] == before.st(qi).status@[k]); }
                            }
                        }
                    }
                    if all_gone {
                        self.piece_download_state[q].all_removed = true;
                        proof {
                            assert(self.piece_download_state@[qi].wf(self.layout.num_blocks(qi)));
                            assert forall|p: int| 0 <= p < self.n() implies (#[trigger] self.piece_download_state@[p]).wf(
                                self.layout.num_blocks(p)) by {
                                if p != qi { assert(self.piece_download_state@[p] == before.piece_download_state@[p]); }
                            }
                            assert forall|i: int| 0 <= i < self.n() && (#[trigger] self.table()[i]).0 != qi implies self.table()[i].1
                                == state_score(self.st(self.table()[i].0 as int)) by {
                                assert(before.table()[i].1 == state_score(before.st(before.table()[i].0 as int)));
                            }
                            assert(before.table()[before.lookup()[qi] as int].1 == state_score(before.st(qi)));
                        }
                        self.update_priority(q, ALL_BLOCKS_REMOVED_PENALTY);
                        proof {
                            assert forall|p: int| 0 <= p < self.n() && p != qi implies #[trigger] self.piece_download_state@[p]
                                == before.piece_download_state@[p] by {}
                        }
                    } else {
                        proof {
                            assert(self.piece_download_state@[qi].wf(self.layout.num_blocks(qi)));
                            assert forall|p: int| 0 <= p < self.n() implies (#[trigger] self.piece_download_state@[p]).wf(
                                self.layout.num_blocks(p)) by {
                                if p != qi { assert(self.piece_download_state@[p] == before.piece_download_state@[p]); }
                            }
                            assert forall|i: int| 0 <= i < self.n() implies (#[trigger] self.table()[i]).1
                                == state_score(self.st(self.table()[i].0 as int)) by {
                                assert(before.table()[i].1 == state_score(before.st(before.table()[i].0 as int)));
                            }
                        }
                    }
                }
            },
        }
    }

    /// Restores piece `piece_idx` to a fresh state: every block unrequested and
    /// no sticky score. Its availability stays.
    pub fn reinsert_piece(&mut self, piece_idx: usize)
        requires
            old(self).wf(),
        ensures
            final(self).wf(),
            piece_idx >= old(self).n() ==> final(self).same_state(old(self)),
            piece_idx < old(self).n() ==> {
                let q = piece_idx as int;
                &&& final(self).others_unchanged(old(self), q)
                &&& final(self).st(q).availability == old(self).st(q).availability
                &&& !final(self).st(q).started && !final(self).st(q).all_in_transfer
                    && !final(self).st(q).all_removed
                &&& forall|j: int|
                    0 <= j < old(self).layout.num_blocks(q) ==> #[trigger] final(self).status(q, j)
                        == BlockStatus::Unrequested
                &&& old(self).moved_only(final(self), q)
            },
    {
        if piece_idx >= self.layout.pieces {
            return;
        }
        let ghost before = *self;
        let ghost qi = piece_idx as int;
        let st = &self.piece_download_state[piece_idx];
        let mut delta: i128 = 0;
        if st.started {
            delta = delta - SOME_BLOCKS_PICKED_BONUS;
        }
        if st.all_in_transfer {
            delta = delta - ALL_BLOCKS_PICKED_PENALTY;
        }
        if st.all_removed {
            delta = delta - ALL_BLOCKS_REMOVED_PENALTY;
        }
        let availability = st.availability;
        let nb = self.layout.blocks_in_piece(piece_idx);
        self.piece_download_state[piece_idx] = PieceDownloadState::init(nb, availability);
        proof {
            assert forall|p: int| 0 <= p < self.n() implies (#[trigger] self.piece_download_state@[p]).wf(
                self.layout.num_blocks(p)) by {
                if p != qi { assert(self.piece_download_state@[p] == before.piece_download_state@[p]); }
            }
            assert forall|i: int| 0 <= i < self.n() && (#[trigger] self.table()[i]).0 != qi implies self.table()[i].1
                == state_score(self.st(self.table()[i].0 as int)) by {
                assert(before.table()[i].1 == state_score(before.st(before.table()[i].0 as int)));
            }
            assert(before.table()[before.lookup()[qi] as int].1 == state_score(before.st(qi)));
        }
        self.update_priority(piece_idx, delta);
    }

    /// Adjusts the availability of a piece by one step; the count is a machine
    /// word and stops at its bounds.
    fn adjust_availability(&mut self, piece_idx: usize, up: bool)
        requires
            old(self).wf(),
        ensures
            final(self).wf(),
            final(self).only_availability_changed(old(self)),
            forall|p: int|
                0 <= p < old(self).n() && p != piece_idx ==> #[trigger] final(self).st(p).availability
                    == old(self).st(p).availability,
            piece_idx < old(self).n() ==> old(self).moved_only(final(self), piece_idx as int),
            piece_idx < old(self).n() ==> final(self).st(piece_idx as int).availability == if up {
                sat_add(old(self).st(piece_idx as int).availability as int, 1)
            } else {
                sat_sub(old(self).st(piece_idx as int).availability as int, 1)
            },
    {
        if piece_idx >= self.layout.pieces {
            return;
        }
        let ghost before = *self;
        let ghost qi = piece_idx as int;
        let a = self.piece_download_state[piece_idx].availability;
        let delta: i64 = if up && a < i64::MAX {
            1
        } else if !up && a > i64::MIN {
            -1
        } else {
            0
        };
        self.piece_download_state[piece_idx].availability = a + delta;
        proof {
            assert forall|p: int| 0 <= p < self.n() implies (#[trigger] self.piece_download_state@[p]).wf(
                self.layout.num_blocks(p)) by {
                if p != qi { assert(self.piece_download_state@[p] == before.piece_download_state@[p]); }
            }
            assert forall|i: int| 0 <= i < self.n() && (#[trigger] self.table()[i]).0 != qi implies self.table()[i].1
                == state_score(self.st(self.table()[i].0 as int)) by {
                assert(before.table()[i].1 == state_score(before.st(before.table()[i].0 as int)));
            }
            assert(before.table()[before.lookup()[qi] as int].1 == state_score(before.st(qi)));
        }
        self.update_priority(piece_idx, delta as i128);
        proof {
            assert forall|p: int| 0 <= p < self.n() && p != qi implies #[trigger] self.st(p).availability
                == before.st(p).availability by {
                assert(self.piece_download_state@[p] == before.piece_download_state@[p]);
            }
        }
    }

    /// `after` is `self` with one more peer advertising each piece of `s`, per occurrence.
    pub open spec fn raised_by(&self, after: Self, s: Seq<usize>) -> bool {
        &&& after.wf()
        &&& after.only_availability_changed(self)
        &&& forall|p: int|
            0 <= p < self.n() ==> #[trigger] after.st(p).availability == sat_add(
                self.st(p).availability as int,
                occurrences(s, p) as int,
            )
    }

    /// One more peer advertises the piece.
    pub fn increase_availability_for_piece(&mut self, piece_idx: usize)
        requires
            old(self).wf(),
        ensures
            old(self).raised_by(*final(self), seq![piece_idx]),
            piece_idx < old(self).n() ==> old(self).moved_only(final(self), piece_idx as int),
    {
        self.adjust_availability(piece_idx, true);
        proof {
            let s = seq![piece_idx];
            assert forall|p: int| #[trigger] occurrences(s, p) == if p == piece_idx { 1nat } else { 0nat } by {
                assert(s.drop_last() =~= Seq::<usize>::empty());
                assert(occurrences(Seq::<usize>::empty(), p) == 0);
            }
        }
    }

    /// One more peer advertises each listed piece, once per occurrence.
    pub fn increase_availability_for_pieces(&mut self, piece_idxs: Vec<usize>)
        requires
            old(self).wf(),
        ensures
            old(self).raised_by(*final(self), piece_idxs@),
    {
        let ghost start = *self;
        let mut i: usize = 0;
        while i < piece_idxs.len()
            invariant
                self.wf(),
                i <= piece_idxs@.len(),
                self.only_availability_changed(&start),
                self.n() == start.n(),
                forall|p: int|
                    0 <= p < start.n() ==> #[trigger] self.st(p).availability == sat_add(
                        start.st(p).availability as int,
                        occurrences(piece_idxs@.subrange(0, i as int), p) as int,
                    ),
            decreases piece_idxs@.len() - i,
        {
            let ghost before = *self;
            self.adjust_availability(piece_idxs[i], true);
            proof {
                let s = piece_idxs@;
                assert(s.subrange(0, i + 1).drop_last() =~= s.subrange(0, i as int));
                assert forall|p: int| 0 <= p < start.n() implies #[trigger] self.st(p).availability == sat_add(
                    start.st(p).availability as int,
                    occurrences(s.subrange(0, i + 1), p) as int) by {
                    assert(before.st(p).availability == sat_add(start.st(p).availability as int,
                        occurrences(s.subrange(0, i as int), p) as int));
                }
                assert forall|p: int| 0 <= p < self.n() implies {
                    let (a, b) = (#[trigger] self.piece_download_state@[p], start.piece_download_state@[p]);
                    &&& a.status == b.status
                    &&& a.started == b.started
                    &&& a.all_in_transfer == b.all_in_transfer
                    &&& a.all_removed == b.all_removed
                } by {
                    assert(before.piece_download_state@[p].status == start.piece_download_state@[p].status);
                }
            }
            i = i + 1;
        }
        assert(piece_idxs@.subrange(0, i as int) =~= piece_idxs@);
    }

    /// One peer fewer advertises each listed piece, once per occurrence.
    pub fn decrease_availability_for_pieces(&mut self, piece_idxs: Vec<usize>)
        requires
            old(self).wf(),
        ensures
            final(self).wf(),
            final(self).only_availability_changed(old(self)),
            forall|p: int|
                0 <= p < old(self).n() ==> #[trigger] final(self).st(p).availability == sat_sub(
                    old(self).st(p).availability as int,
                    occurrences(piece_idxs@, p) as int,
                ),
    {
        let ghost start = *self;
        let mut i: usize = 0;
        while i < piece_idxs.len()
            invariant
                self.wf(),
                i <= piece_idxs@.len(),
                self.only_availability_changed(&start),
                self.n() == start.n(),
                forall|p: int|
                    0 <= p < start.n() ==> #[trigger] self.st(p).availability == sat_sub(
                        start.st(p).availability as int,
                        occurrences(piece_idxs@.subrange(0, i as int), p) as int,
                    ),
            decreases piece_idxs@.len() - i,
        {
            let ghost before = *self;
            self.adjust_availability(piece_idxs[i], false);
            proof {
                let s = piece_idxs@;
                assert(s.subrange(0, i + 1).drop_last() =~= s.subrange(0, i as int));
                assert forall|p: int| 0 <= p < start.n() implies #[trigger] self.st(p).availability == sat_sub(
                    start.st(p).availability as int,
                    occurrences(s.subrange(0, i + 1), p) as int) by {
                    assert(before.st(p).availability == sat_sub(start.st(p).availability as int,
                        occurrences(s.subrange(0, i as int), p) as int));
                }
                assert forall|p: int| 0 <= p < self.n() implies {
                    let (a, b) = (#[trigger] self.piece_download_state@[p], start.piece_download_state@[p]);
                    &&& a.status == b.status
                    &&& a.started == b.started
                    &&& a.all_in_transfer == b.all_in_transfer
                    &&& a.all_removed == b.all_removed
                } by {
                    assert(before.piece_download_state@[p].status == start.piece_download_state@[p].status);
                }
            }
            i = i + 1;
        }
        assert(piece_idxs@.subrange(0, i as int) =~= piece_idxs@);
    }
}

/// The blocks of a piece split into unrequested, in transfer and written:
/// the first two are disjoint, and together they are every block of the piece
/// but those written since the piece was last (re)initialised.
pub proof fn lemma_block_partition(picker: RarestPiecePicker, p: int)
    requires
        picker.wf(),
        0 <= p < picker.n(),
    ensures
        picker.unrequested(p).disjoint(picker.in_transfer(p)),
        picker.unrequested(p) + picker.in_transfer(p) == picker.all_blocks(p) - picker.removed(p),
{
    assert(picker.unrequested(p) + picker.in_transfer(p) =~= picker.all_blocks(p) - picker.removed(p));
}

/// Removing the same block twice has the effect of removing it once.
pub proof fn lemma_remove_block_idempotent(
    first: RarestPiecePicker,
    once: RarestPiecePicker,
    twice: RarestPiecePicker,
    b: Block,
)
    requires
        first.wf(),
        first.removal(once, b),
        once.removal(twice, b),
    ensures
        twice.same_state(&once),
{
    match first.index_of(b) {
        Some(j) => {
            assert(once.index_of(b) == Some(j));
            let q = b.piece_idx as int;
            if first.status(q, j) != BlockStatus::Removed {
                assert(once.status(q, j) == BlockStatus::Removed);
            }
        },
        None => {
            assert(once.index_of(b) is None);
        },
    }
}

/// The sticky penalties outweigh availability: a piece with every block in
/// transfer sorts after every piece that still has unrequested blocks, and a
/// fully written piece sorts after every piece that is not.
pub proof fn lemma_penalties_dominate(
    a: PieceDownloadState,
    b: PieceDownloadState,
    blocks_a: int,
    blocks_b: int,
)
    requires
        a.wf(blocks_a),
        b.wf(blocks_b),
    ensures
        !a.all_in_transfer && !a.all_removed && b.all_in_transfer ==> state_score(a) < state_score(b),
        !a.all_removed && b.all_removed ==> state_score(a) < state_score(b),
{
}

/// Every block that `pick` returns belongs to one piece that the peer advertises.
pub proof fn lemma_picked_blocks_advertised(
    before: RarestPiecePicker,
    after: RarestPiecePicker,
    peer: Bitfield,
    num: int,
    r: Seq<Block>,
)
    requires
        before.wf(),
        before.pick_spec(after, &peer, num, r),
        num >= 0,
        r.len() > 0,
    ensures
        exists|q: int|
            peer.has(q) && forall|i: int| 0 <= i < r.len() ==> (#[trigger] r[i]).piece_idx == q,
{
    if num > 0 && exists|k: int| #[trigger] before.candidate(&peer, k) {
        let k0 = choose_first_candidate(before, peer);
        let q = before.table()[k0].0 as int;
        assert(before.picked(after, q, r, num));
        assert forall|i: int| 0 <= i < r.len() implies (#[trigger] r[i]).piece_idx == q by {
            if before.st(q).has_status(BlockStatus::Unrequested) {
                assert(r[i] == before.layout.block_at(q, bidx(before.layout, r[i])));
            } else {
                assert(r[0] == before.layout.block_at(q, bidx(before.layout, r[0])));
            }
        }
        assert(peer.has(q));
        assert(peer.has(q) && forall|i: int| 0 <= i < r.len() ==> (#[trigger] r[i]).piece_idx == q);
    }
}

/// Picking moves blocks from unrequested to in transfer and nothing else: for
/// every piece, the blocks still to be written stay the same, the written ones
/// stay the same, and every returned block is in transfer afterwards.
pub proof fn lemma_pick_keeps_blocks(
    before: RarestPiecePicker,
    after: RarestPiecePicker,
    peer: Bitfield,
    num: int,
    r: Seq<Block>,
)
    requires
        before.wf(),
        before.pick_spec(after, &peer, num, r),
        num >= 0,
    ensures
        forall|p: int|
            0 <= p < before.n() ==> #[trigger] after.unrequested(p) + after.in_transfer(p)
                == before.unrequested(p) + before.in_transfer(p) && after.removed(p) == before.removed(p),
        forall|i: int|
            0 <= i < r.len() ==> after.in_transfer((#[trigger] r[i]).piece_idx as int).contains(
                bidx(before.layout, r[i]),
            ),
{
    if num > 0 && exists|k: int| #[trigger] before.candidate(&peer, k) {
        let k0 = choose_first_candidate(before, peer);
        let q = before.table()[k0].0 as int;
        assert(before.picked(after, q, r, num));
        let case_a = before.st(q).has_status(BlockStatus::Unrequested);
        assert forall|p: int, j: int| 0 <= p < before.n() && 0 <= j < before.layout.num_blocks(p)
            implies #[trigger] after.status(p, j) == before.status(p, j) || (p == q && before.status(p, j)
            == BlockStatus::Unrequested && after.status(p, j) == BlockStatus::InTransfer) by {
            if p != q {
                assert(after.piece_download_state@[p] == before.piece_download_state@[p]);
            } else if case_a {
                if exists|i: int| 0 <= i < r.len() && bidx(before.layout, #[trigger] r[i]) == j {
                    let i = choose|i: int| 0 <= i < r.len() && bidx(before.layout, #[trigger] r[i]) == j;
                    assert(before.status(q, bidx(before.layout, r[i])) == BlockStatus::Unrequested);
                }
            }
        }
        assert forall|p: int| 0 <= p < before.n() implies #[trigger] after.unrequested(p) + after.in_transfer(p)
            == before.unrequested(p) + before.in_transfer(p) && after.removed(p) == before.removed(p) by {
            assert(after.layout == before.layout);
            assert(after.unrequested(p) + after.in_transfer(p) =~= before.unrequested(p) + before.in_transfer(p));
            assert(after.removed(p) =~= before.removed(p));
        }
        assert forall|i: int| 0 <= i < r.len() implies after.in_transfer((#[trigger] r[i]).piece_idx as int).contains(
            bidx(before.layout, r[i])) by {
            if case_a {
                assert(r[i] == before.layout.block_at(q, bidx(before.layout, r[i])));
            } else {
                assert(r[0] == before.layout.block_at(q, bidx(before.layout, r[0])));
                assert(after.piece_download_state == before.piece_download_state);
            }
        }
    } else {
        assert forall|p: int| 0 <= p < before.n() implies #[trigger] after.unrequested(p) + after.in_transfer(p)
            == before.unrequested(p) + before.in_transfer(p) && after.removed(p) == before.removed(p) by {
            assert(after.unrequested(p) + after.in_transfer(p) =~= before.unrequested(p) + before.in_transfer(p));
            assert(after.removed(p) =~= before.removed(p));
        }
    }
}

/// The first table position that holds a candidate, given that one does.
proof fn choose_first_candidate(k: RarestPiecePicker, peer: Bitfield) -> (k0: int)
    requires
        exists|j: int| #[trigger] k.candidate(&peer, j),
    ensures
        k.candidate(&peer, k0),
        forall|j: int| 0 <= j < k0 ==> !#[trigger] k.candidate(&peer, j),
{
    let w = choose|j: int| #[trigger] k.candidate(&peer, j);
    first_candidate_below(k, peer, w)
}

proof fn first_candidate_below(k: RarestPiecePicker, peer: Bitfield, w: int) -> (k0: int)
    requires
        k.candidate(&peer, w),
    ensures
        k.candidate(&peer, k0),
        k0 <= w,
        forall|j: int| 0 <= j < k0 ==> !#[trigger] k.candidate(&peer, j),
    decreases w,
{
    if exists|j: int| 0 <= j < w && #[trigger] k.candidate(&peer, j) {
        let j = choose|j: int| 0 <= j < w && #[trigger] k.candidate(&peer, j);
        first_candidate_below(k, peer, j)
    } else {
        w
    }
}

/// How often `p` occurs in `s`.
pub open spec fn occurrences(s: Seq<usize>, p: int) -> nat
    decreases s.len(),
{
    if s.len() == 0 {
        0
    } else {
        occurrences(s.drop_last(), p) + if s.last() == p { 1nat } else { 0nat }
    }
}

/// `a + k`, stopping at the largest 64-bit count (2^63 - 1 increments, which
/// no process reaches).
pub open spec fn sat_add(a: int, k: int) -> int {
    if a + k <= i64::MAX { a + k } else { i64::MAX as int }
}

/// `a - k`, stopping at the smallest 64-bit count.
pub open spec fn sat_sub(a: int, k: int) -> int {
    if a - k >= i64::MIN { a - k } else { i64::MIN as int }
}

} // verus!
