use vstd::prelude::*;
use vstd::arithmetic::div_mod::lemma_fundamental_div_mod;

verus! {

/// The fixed length of a block, the unit of a request on the wire.
pub const BLOCK_SIZE_BYTES: usize = 16384;

/// A block of a piece: (piece index, byte offset within the piece, length).
#[derive(Clone, Copy, Debug, Default, PartialEq, Eq, Hash, Structural)]
pub struct Block {
    pub piece_idx: usize,
    pub offset: usize,
    pub length: usize,
}

impl Block {
    pub fn new(piece_idx: usize, offset: usize, length: usize) -> (r: Self)
        ensures
            r.piece_idx == piece_idx,
            r.offset == offset,
            r.length == length,
    {
        Block { piece_idx, offset, length }
    }
}

/// A block together with its payload.
#[derive(Clone, Debug, Default, PartialEq, Eq)]
pub struct DataBlock {
    pub piece_idx: usize,
    pub offset: usize,
    pub data: Vec<u8>,
}

impl DataBlock {
    pub fn new(piece_idx: usize, offset: usize, data: Vec<u8>) -> (r: Self)
        ensures
            r == (DataBlock { piece_idx, offset, data }),
    {
        DataBlock { piece_idx, offset, data }
    }

    pub open spec fn block_spec(&self) -> Block {
        Block { piece_idx: self.piece_idx, offset: self.offset, length: self.data@.len() as usize }
    }

    /// The locator of this block.
    pub fn to_block(&self) -> (r: Block)
        ensures
            r == self.block_spec(),
            r.length == self.data@.len(),
    {
        Block { piece_idx: self.piece_idx, offset: self.offset, length: self.data.len() }
    }
}

/// How a torrent's bytes split into pieces and blocks. Every piece but the
/// last has `head_pieces_length` bytes; every block but the last of a piece
/// has `usual_block_length` bytes.
#[derive(Clone, Debug)]
pub struct TorrentLayout {
    pub pieces: usize,
    pub head_pieces_length: usize,
    pub last_piece_length: usize,
    pub blocks_in_head_pieces: usize,
    pub blocks_in_last_piece: usize,
    pub usual_block_length: usize,
    pub head_pieces_last_block_length: usize,
    pub last_piece_last_block_length: usize,
    pub output_file_path: String,
    pub output_file_length: usize,
}

/// `blocks` blocks of `block_len` bytes, the last one `last_len` bytes long,
/// cover exactly `len` bytes.
pub open spec fn splits_into(len: int, block_len: int, blocks: int, last_len: int) -> bool {
    &&& blocks >= 1
    &&& 0 < last_len <= block_len
    &&& len == (blocks - 1) * block_len + last_len
}

impl TorrentLayout {
    pub open spec fn wf(&self) -> bool {
        &&& self.pieces >= 1
        &&& self.usual_block_length > 0
        &&& 0 < self.last_piece_length <= self.head_pieces_length
        &&& splits_into(
            self.head_pieces_length as int,
            self.usual_block_length as int,
            self.blocks_in_head_pieces as int,
            self.head_pieces_last_block_length as int,
        )
        &&& splits_into(
            self.last_piece_length as int,
            self.usual_block_length as int,
            self.blocks_in_last_piece as int,
            self.last_piece_last_block_length as int,
        )
        &&& self.output_file_length == (self.pieces - 1) * self.head_pieces_length
            + self.last_piece_length
    }

    pub open spec fn is_last(&self, piece_idx: int) -> bool {
        piece_idx == self.pieces - 1
    }

    pub open spec fn piece_len(&self, piece_idx: int) -> int {
        if self.is_last(piece_idx) {
            self.last_piece_length as int
        } else {
            self.head_pieces_length as int
        }
    }

    pub open spec fn num_blocks(&self, piece_idx: int) -> int {
        if self.is_last(piece_idx) {
            self.blocks_in_last_piece as int
        } else {
            self.blocks_in_head_pieces as int
        }
    }

    pub open spec fn last_block_len(&self, piece_idx: int) -> int {
        if self.is_last(piece_idx) {
            self.last_piece_last_block_length as int
        } else {
            self.head_pieces_last_block_length as int
        }
    }

    pub open spec fn block_len(&self, piece_idx: int, block_idx: int) -> int {
        if block_idx == self.num_blocks(piece_idx) - 1 {
            self.last_block_len(piece_idx)
        } else {
            self.usual_block_length as int
        }
    }

    /// The `block_idx`-th block of piece `piece_idx`.
    pub open spec fn block_at(&self, piece_idx: int, block_idx: int) -> Block {
        Block {
            piece_idx: piece_idx as usize,
            offset: (block_idx * self.usual_block_length) as usize,
            length: self.block_len(piece_idx, block_idx) as usize,
        }
    }

    /// The blocks of a piece, in order of offset.
    pub open spec fn blocks_of(&self, piece_idx: int) -> Seq<Block> {
        Seq::new(self.num_blocks(piece_idx) as nat, |j: int| self.block_at(piece_idx, j))
    }

    /// The absolute offset in the output file of a byte of a piece.
    pub open spec fn absolute_offset(&self, piece_idx: int, offset: int) -> int {
        piece_idx * self.head_pieces_length + offset
    }

    pub fn blocks_in_piece(&self, piece_idx: usize) -> (r: usize)
        requires
            self.wf(),
        ensures
            r == self.num_blocks(piece_idx as int),
            r >= 1,
    {
        if piece_idx == self.pieces - 1 {
            self.blocks_in_last_piece
        } else {
            self.blocks_in_head_pieces
        }
    }

    pub fn piece_length(&self, piece_idx: usize) -> (r: usize)
        requires
            self.wf(),
        ensures
            r == self.piece_len(piece_idx as int),
    {
        if piece_idx == self.pieces - 1 {
            self.last_piece_length
        } else {
            self.head_pieces_length
        }
    }

    pub fn last_block_length_for_piece(&self, piece_idx: usize) -> (r: usize)
        requires
            self.wf(),
        ensures
            r == self.last_block_len(piece_idx as int),
    {
        if piece_idx == self.pieces - 1 {
            self.last_piece_last_block_length
        } else {
            self.head_pieces_last_block_length
        }
    }

    pub fn block_length(&self, piece_idx: usize, block_idx: usize) -> (r: usize)
        requires
            self.wf(),
        ensures
            r == self.block_len(piece_idx as int, block_idx as int),
    {
        if block_idx == self.blocks_in_piece(piece_idx) - 1 {
            self.last_block_length_for_piece(piece_idx)
        } else {
            self.usual_block_length
        }
    }
    /// Where in the output file a byte of a piece lies.
    pub fn file_offset(&self, piece_idx: usize, offset: usize) -> (r: usize)
        requires
            self.wf(),
            piece_idx < self.pieces,
            offset < self.piece_len(piece_idx as int),
        ensures
            r == self.absolute_offset(piece_idx as int, offset as int),
            r < self.output_file_length,
    {
        proof {
            let l = self.head_pieces_length as int;
            let p = piece_idx as int;
            assert(p * l <= (self.pieces - 1) * l) by (nonlinear_arith)
                requires p <= self.pieces - 1, l >= 0;
            if p < self.pieces - 1 {
                assert((p + 1) * l <= (self.pieces - 1) * l) by (nonlinear_arith)
                    requires p + 1 <= self.pieces - 1, l >= 0;
                assert((p + 1) * l == p * l + l) by (nonlinear_arith);
            }
        }
        piece_idx * self.head_pieces_length + offset
    }
    /// The block index that a locator names in this layout, if any.
    pub open spec fn index_of(&self, b: Block) -> Option<int> {
        let j = b.offset / self.usual_block_length;
        if b.piece_idx < self.pieces && b.offset % self.usual_block_length == 0 && j < self.num_blocks(
            b.piece_idx as int,
        ) && b == self.block_at(b.piece_idx as int, j as int) {
            Some(j as int)
        } else {
            None
        }
    }

    /// The block index of a locator, if it names a block of this layout.
    pub fn locate(&self, block: &Block) -> (r: Option<usize>)
        requires
            self.wf(),
        ensures
            match r {
                Some(j) => self.index_of(*block) == Some(j as int),
                None => self.index_of(*block) is None,
            },
    {
        if block.piece_idx >= self.pieces {
            return None;
        }
        let bl = self.usual_block_length;
        if block.offset % bl != 0 {
            return None;
        }
        let j = block.offset / bl;
        if j >= self.blocks_in_piece(block.piece_idx) {
            return None;
        }
        if block.length != self.block_length(block.piece_idx, j) {
            return None;
        }
        proof {
            lemma_fundamental_div_mod(block.offset as int, bl as int);
            assert(bl * (block.offset / bl) == j * bl) by (nonlinear_arith)
                requires j == block.offset / bl;
        }
        Some(j)
    }
    /// Splits `len` bytes into blocks of `block_len`: how many, and the length
    /// of the last.
    fn split(len: usize, block_len: usize) -> (r: (usize, usize))
        requires
            len > 0,
            block_len > 0,
        ensures
            splits_into(len as int, block_len as int, r.0 as int, r.1 as int),
    {
        let blocks = (len - 1) / block_len + 1;
        proof {
            lemma_fundamental_div_mod((len - 1) as int, block_len as int);
            assert((blocks - 1) * block_len == block_len * ((len - 1) / (block_len as int))) by (nonlinear_arith)
                requires blocks - 1 == (len - 1) / (block_len as int);
        }
        let last = len - (blocks - 1) * block_len;
        (blocks, last)
    }

    /// The layout of `pieces` pieces of `head_pieces_length` bytes but the
    /// last, of `last_piece_length`, in blocks of `block_length`; `None` where
    /// these do not describe a torrent or its length exceeds a machine word.
    pub fn new(
        pieces: usize,
        head_pieces_length: usize,
        last_piece_length: usize,
        block_length: usize,
        output_file_path: String,
    ) -> (r: Option<Self>)
        ensures
            r is Some <==> (pieces >= 1 && block_length > 0 && 0 < last_piece_length
                <= head_pieces_length && (pieces - 1) * head_pieces_length + last_piece_length
                <= usize::MAX),
            r matches Some(l) ==> l.wf() && l.pieces == pieces && l.head_pieces_length
                == head_pieces_length && l.last_piece_length == last_piece_length
                && l.usual_block_length == block_length && l.output_file_path == output_file_path,
    {
        if pieces == 0 || block_length == 0 || last_piece_length == 0 || last_piece_length
            > head_pieces_length {
            return None;
        }
        let head_total = match (pieces - 1).checked_mul(head_pieces_length) {
            Some(t) => t,
            None => {
                proof {
                    assert((pieces - 1) * head_pieces_length + last_piece_length > usize::MAX);
                }
                return None;
            },
        };
        let total = match head_total.checked_add(last_piece_length) {
            Some(t) => t,
            None => return None,
        };
        let (blocks_in_head_pieces, head_pieces_last_block_length) = Self::split(
            head_pieces_length,
            block_length,
        );
        let (blocks_in_last_piece, last_piece_last_block_length) = Self::split(
            last_piece_length,
            block_length,
        );
        Some(
            TorrentLayout {
                pieces,
                head_pieces_length,
                last_piece_length,
                blocks_in_head_pieces,
                blocks_in_last_piece,
                usual_block_length: block_length,
                head_pieces_last_block_length,
                last_piece_last_block_length,
                output_file_path,
                output_file_length: total,
            },
        )
    }
    /// Where in the output file a requested block lies: its start and length,
    /// when it is a range within one piece of the file.
    pub fn block_range(&self, block: &Block) -> (r: Option<(usize, usize)>)
        requires
            self.wf(),
        ensures
            r is Some <==> block.piece_idx < self.pieces && block.offset as int + block.length as int
                <= self.piece_len(block.piece_idx as int) && block.length > 0,
            r matches Some((start, len)) ==> start == self.absolute_offset(
                block.piece_idx as int,
                block.offset as int,
            ) && len == block.length && start + len <= self.output_file_length,
    {
        if block.piece_idx >= self.pieces || block.length == 0 {
            return None;
        }
        let piece_len = self.piece_length(block.piece_idx);
        if block.offset > piece_len || block.length > piece_len - block.offset {
            return None;
        }
        let start = self.file_offset(block.piece_idx, block.offset);
        proof {
            let l = self.head_pieces_length as int;
            let p = block.piece_idx as int;
            assert(p * l <= (self.pieces - 1) * l) by (nonlinear_arith)
                requires p <= self.pieces - 1, l >= 0;
            if p < self.pieces - 1 {
                assert((p + 1) * l <= (self.pieces - 1) * l) by (nonlinear_arith)
                    requires p + 1 <= self.pieces - 1, l >= 0;
                assert((p + 1) * l == p * l + l) by (nonlinear_arith);
            }
        }
        Some((start, block.length))
    }
}

/// The total length of the first `k` blocks of piece `p`.
pub open spec fn block_sum(l: TorrentLayout, p: int, k: int) -> int
    decreases k,
{
    if k <= 0 {
        0
    } else {
        block_sum(l, p, k - 1) + l.block_len(p, k - 1)
    }
}

/// The total length of the first `k` pieces.
pub open spec fn piece_sum(l: TorrentLayout, k: int) -> int
    decreases k,
{
    if k <= 0 {
        0
    } else {
        piece_sum(l, k - 1) + l.piece_len(k - 1)
    }
}

proof fn lemma_full_blocks_sum(l: TorrentLayout, p: int, k: int)
    requires
        l.wf(),
        0 <= k <= l.num_blocks(p) - 1,
    ensures
        block_sum(l, p, k) == k * l.usual_block_length,
    decreases k,
{
    if k > 0 {
        lemma_full_blocks_sum(l, p, k - 1);
        assert(k * l.usual_block_length == (k - 1) * l.usual_block_length + l.usual_block_length)
            by (nonlinear_arith);
        assert(l.block_len(p, k - 1) == l.usual_block_length);
    } else {
        assert(k * l.usual_block_length == 0) by (nonlinear_arith) requires k == 0;
    }
}

proof fn lemma_head_pieces_sum(l: TorrentLayout, k: int)
    requires
        l.wf(),
        0 <= k <= l.pieces - 1,
    ensures
        piece_sum(l, k) == k * l.head_pieces_length,
    decreases k,
{
    if k > 0 {
        lemma_head_pieces_sum(l, k - 1);
        assert(k * l.head_pieces_length == (k - 1) * l.head_pieces_length + l.head_pieces_length)
            by (nonlinear_arith);
        assert(l.piece_len(k - 1) == l.head_pieces_length);
    } else {
        assert(k * l.head_pieces_length == 0) by (nonlinear_arith) requires k == 0;
    }
}

/// How a well-formed layout splits the file: the pieces add up to the file
/// and only the last may be shorter; in each piece there are
/// ceil(length / block length) blocks, all of full length but the last, which
/// is shorter exactly when the block length does not divide the piece length,
/// and together they make up the piece.
pub proof fn lemma_layout_partition(l: TorrentLayout, p: int)
    requires
        l.wf(),
        0 <= p < l.pieces,
    ensures
        piece_sum(l, l.pieces as int) == l.output_file_length,
        0 < l.piece_len(p) <= l.head_pieces_length,
        p < l.pieces - 1 ==> l.piece_len(p) == l.head_pieces_length,
        (l.num_blocks(p) - 1) * l.usual_block_length < l.piece_len(p) <= l.num_blocks(p)
            * l.usual_block_length,
        forall|j: int| 0 <= j < l.num_blocks(p) - 1 ==> #[trigger] l.block_len(p, j) == l.usual_block_length,
        0 < l.block_len(p, l.num_blocks(p) - 1) <= l.usual_block_length,
        (l.block_len(p, l.num_blocks(p) - 1) < l.usual_block_length) == (l.piece_len(p)
            % (l.usual_block_length as int) != 0),
        block_sum(l, p, l.num_blocks(p)) == l.piece_len(p),
{
    let b = l.usual_block_length as int;
    let nb = l.num_blocks(p);
    let last = l.block_len(p, nb - 1);
    lemma_head_pieces_sum(l, l.pieces - 1);
    lemma_full_blocks_sum(l, p, nb - 1);
    assert(nb * b == (nb - 1) * b + b) by (nonlinear_arith);
    assert(l.piece_len(p) == (nb - 1) * b + last);
    if last < b {
        assert(((nb - 1) * b + last) % b == last) by (nonlinear_arith)
            requires 0 < last < b, nb >= 1;
    } else {
        assert(((nb - 1) * b + b) % b == 0) by (nonlinear_arith)
            requires b > 0, nb >= 1;
    }
}

} // verus!
