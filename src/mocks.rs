use vstd::prelude::*;
use crate::digest::{sha1_digest, sha1_of};
use crate::layout::{Block, DataBlock, TorrentLayout, BLOCK_SIZE_BYTES};

verus! {

/// The whole length of a test layout fits a machine word.
pub open spec fn mock_fits(num_of_pieces: int, blocks_in_head_pieces: int) -> bool {
    num_of_pieces * (BLOCK_SIZE_BYTES * blocks_in_head_pieces) <= usize::MAX
}

/// A layout of `num_of_pieces` pieces of whole blocks: `blocks_in_head_pieces`
/// blocks in each piece but the last, `blocks_in_last_piece` in the last.
pub fn generate_mock_layout(
    num_of_pieces: usize,
    blocks_in_head_pieces: usize,
    blocks_in_last_piece: usize,
) -> (r: TorrentLayout)
    requires
        1 <= num_of_pieces,
        1 <= blocks_in_last_piece <= blocks_in_head_pieces,
        mock_fits(num_of_pieces as int, blocks_in_head_pieces as int),
    ensures
        r.wf(),
        r.pieces == num_of_pieces,
        r.usual_block_length == BLOCK_SIZE_BYTES,
        r.blocks_in_head_pieces == blocks_in_head_pieces,
        r.blocks_in_last_piece == if num_of_pieces > 1 { blocks_in_last_piece } else { blocks_in_head_pieces },
        r.head_pieces_length == BLOCK_SIZE_BYTES * blocks_in_head_pieces,
        r.last_piece_length == BLOCK_SIZE_BYTES * r.blocks_in_last_piece,
        r.head_pieces_last_block_length == BLOCK_SIZE_BYTES,
        r.last_piece_last_block_length == BLOCK_SIZE_BYTES,
        r.output_file_length == (num_of_pieces - 1) * r.head_pieces_length + r.last_piece_length,
        r.output_file_path@.len() == 0,
{
    proof {
        let h = BLOCK_SIZE_BYTES * blocks_in_head_pieces;
        assert(h <= num_of_pieces * h) by (nonlinear_arith)
            requires num_of_pieces >= 1, h >= 0;
        assert(BLOCK_SIZE_BYTES * blocks_in_last_piece <= h) by (nonlinear_arith)
            requires blocks_in_last_piece <= blocks_in_head_pieces, h == BLOCK_SIZE_BYTES * blocks_in_head_pieces;
        assert((num_of_pieces - 1) * h + h == num_of_pieces * h) by (nonlinear_arith);
    }
    let piece_len = BLOCK_SIZE_BYTES * blocks_in_head_pieces;
    let last_blocks = if num_of_pieces > 1 { blocks_in_last_piece } else { blocks_in_head_pieces };
    let last_piece_len = BLOCK_SIZE_BYTES * last_blocks;
    let output_file_length: usize = (num_of_pieces - 1) * piece_len + last_piece_len;
    proof {
        assert(piece_len == (blocks_in_head_pieces - 1) * BLOCK_SIZE_BYTES + BLOCK_SIZE_BYTES) by (nonlinear_arith)
            requires piece_len == BLOCK_SIZE_BYTES * blocks_in_head_pieces;
        assert(last_piece_len == (last_blocks - 1) * BLOCK_SIZE_BYTES + BLOCK_SIZE_BYTES) by (nonlinear_arith)
            requires last_piece_len == BLOCK_SIZE_BYTES * last_blocks;
        assert(last_piece_len <= piece_len) by (nonlinear_arith)
            requires last_piece_len == BLOCK_SIZE_BYTES * last_blocks, piece_len == BLOCK_SIZE_BYTES * blocks_in_head_pieces, last_blocks <= blocks_in_head_pieces;
    }
    TorrentLayout {
        pieces: num_of_pieces,
        head_pieces_length: piece_len,
        last_piece_length: last_piece_len,
        blocks_in_head_pieces,
        blocks_in_last_piece: last_blocks,
        usual_block_length: BLOCK_SIZE_BYTES,
        head_pieces_last_block_length: BLOCK_SIZE_BYTES,
        last_piece_last_block_length: BLOCK_SIZE_BYTES,
        output_file_path: String::new(),
        output_file_length,
    }
}

/// A torrent of generated content for exercising the engine: each byte of
/// piece `i` is `i` modulo 256.
pub struct MockTorrent {
    pub pieces: Vec<Vec<Block>>,
    pub pieces_data: Vec<Vec<u8>>,
    pub piece_hashes: Vec<Vec<u8>>,
    pub layout: TorrentLayout,
}

impl MockTorrent {
    pub open spec fn wf(&self) -> bool {
        &&& self.layout.wf()
        &&& self.pieces@.len() == self.layout.pieces
        &&& self.pieces_data@.len() == self.layout.pieces
        &&& self.piece_hashes@.len() == self.layout.pieces
        &&& forall|i: int|
            0 <= i < self.layout.pieces ==> {
                &&& (#[trigger] self.pieces_data@[i])@.len() == self.layout.piece_len(i)
                &&& self.pieces@[i]@ == self.layout.blocks_of(i)
                &&& self.piece_hashes@[i]@ == sha1_of(self.pieces_data@[i]@)
            }
    }

    pub fn generate(num_of_pieces: usize, blocks_in_head_pieces: usize, blocks_in_last_piece: usize) -> (r:
        Self)
        requires
            1 <= num_of_pieces,
            1 <= blocks_in_last_piece <= blocks_in_head_pieces,
            mock_fits(num_of_pieces as int, blocks_in_head_pieces as int),
        ensures
            r.wf(),
            r.layout.pieces == num_of_pieces,
            forall|i: int, k: int|
                0 <= i < num_of_pieces && 0 <= k < r.layout.piece_len(i) ==> #[trigger] r.pieces_data@[i]@[k]
                    == (i % 256) as u8,
    {
        let layout = generate_mock_layout(num_of_pieces, blocks_in_head_pieces, blocks_in_last_piece);
        let mut pieces: Vec<Vec<Block>> = Vec::new();
        let mut pieces_data: Vec<Vec<u8>> = Vec::new();
        let mut piece_hashes: Vec<Vec<u8>> = Vec::new();
        let mut piece_idx: usize = 0;
        while piece_idx < layout.pieces
            invariant
                layout.wf(),
                layout.pieces == num_of_pieces,
                piece_idx <= layout.pieces,
                pieces@.len() == piece_idx,
                pieces_data@.len() == piece_idx,
                piece_hashes@.len() == piece_idx,
                forall|i: int|
                    0 <= i < piece_idx ==> {
                        &&& (#[trigger] pieces_data@[i])@.len() == layout.piece_len(i)
                        &&& pieces@[i]@ == layout.blocks_of(i)
                        &&& piece_hashes@[i]@ == sha1_of(pieces_data@[i]@)
                        &&& forall|k: int| 0 <= k < layout.piece_len(i) ==> #[trigger] pieces_data@[i]@[k] == (i % 256) as u8
                    },
            decreases layout.pieces - piece_idx,
        {
            let nb = layout.blocks_in_piece(piece_idx);
            let mut blocks: Vec<Block> = Vec::new();
            let mut block_idx: usize = 0;
            while block_idx < nb
                invariant
                    layout.wf(),
                    piece_idx < layout.pieces,
                    nb == layout.num_blocks(piece_idx as int),
                    block_idx <= nb,
                    blocks@.len() == block_idx,
                    forall|j: int| 0 <= j < block_idx ==> #[trigger] blocks@[j] == layout.block_at(piece_idx as int, j),
                decreases nb - block_idx,
            {
                proof {
                    vstd::arithmetic::mul::lemma_mul_inequality(block_idx as int, nb - 1, layout.usual_block_length as int);
                    assert(block_idx * layout.usual_block_length <= layout.piece_len(piece_idx as int)) by (nonlinear_arith)
                        requires block_idx * layout.usual_block_length <= (nb - 1) * layout.usual_block_length,
                            (nb - 1) * layout.usual_block_length < layout.piece_len(piece_idx as int);
                }
                let len = layout.block_length(piece_idx, block_idx);
                blocks.push(Block::new(piece_idx, layout.usual_block_length * block_idx, len));
                proof {
                    assert(layout.usual_block_length * block_idx == block_idx * layout.usual_block_length) by (nonlinear_arith);
                }
                block_idx = block_idx + 1;
            }
            assert(blocks@ =~= layout.blocks_of(piece_idx as int));
            pieces.push(blocks);
            let piece_len = layout.piece_length(piece_idx);
            let piece_data = vec![(piece_idx % 256) as u8; piece_len];
            let hash = sha1_digest(&piece_data);
            piece_hashes.push(hash);
            pieces_data.push(piece_data);
            piece_idx = piece_idx + 1;
        }
        MockTorrent { pieces, pieces_data, piece_hashes, layout }
    }

    /// The `block_idx`-th block of piece `piece_idx`, with its content.
    pub fn data_block(&self, piece_idx: usize, block_idx: usize) -> (r: DataBlock)
        requires
            self.wf(),
            piece_idx < self.layout.pieces,
            block_idx < self.layout.num_blocks(piece_idx as int),
        ensures
            r.block_spec() == self.layout.block_at(piece_idx as int, block_idx as int),
            r.data@ == self.pieces_data@[piece_idx as int]@.subrange(
                block_idx * self.layout.usual_block_length,
                block_idx * self.layout.usual_block_length + self.layout.block_len(piece_idx as int, block_idx as int),
            ),
    {
        let bl = self.layout.usual_block_length;
        let nb = self.layout.blocks_in_piece(piece_idx);
        proof {
            vstd::arithmetic::mul::lemma_mul_inequality(block_idx as int, nb - 1, bl as int);
            if block_idx < nb - 1 {
                vstd::arithmetic::mul::lemma_mul_inequality(block_idx + 1, nb - 1, bl as int);
                assert((block_idx + 1) * bl == block_idx * bl + bl) by (nonlinear_arith);
            }
        }
        let block_len = self.layout.block_length(piece_idx, block_idx);
        proof {
            assert(bl * block_idx == block_idx * bl) by (nonlinear_arith);
            assert(block_idx * bl + block_len <= self.layout.piece_len(piece_idx as int));
        }
        let offset = bl * block_idx;
        let src = &self.pieces_data[piece_idx];
        let mut data: Vec<u8> = Vec::new();
        let src_len = src.len();
        let mut k: usize = 0;
        while k < block_len
            invariant
                src_len == src@.len(),
                k <= block_len,
                offset + block_len <= src@.len(),
                data@ =~= src@.subrange(offset as int, offset + k),
            decreases block_len - k,
        {
            data.push(src[offset + k]);
            k = k + 1;
        }
        DataBlock { piece_idx, offset, data }
    }
}

} // verus!
