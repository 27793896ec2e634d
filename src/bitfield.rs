use vstd::prelude::*;

verus! {

/// The mask of bit `k` of a byte, counting from the most significant bit.
pub open spec fn bit_mask(k: int) -> u8 {
    0x80u8 >> (k as u8)
}

/// Whether bit `k` (most significant first) of `b` is set.
pub open spec fn byte_has(b: u8, k: int) -> bool {
    b & bit_mask(k) != 0
}

proof fn lemma_set_bit(b: u8, k: u8, l: u8)
    by (bit_vector)
    requires
        k < 8,
        l < 8,
    ensures
        ((b | (0x80u8 >> k)) & (0x80u8 >> l) != 0) == (k == l || b & (0x80u8 >> l) != 0),
{
}

proof fn lemma_zero_byte(k: u8)
    by (bit_vector)
    requires
        k < 8,
    ensures
        (0u8 & (0x80u8 >> k)) == 0,
{
}

/// The content of an empty bitfield for `n` pieces: ceil(n / 8) zero bytes.
pub open spec fn empty_content(n: int) -> Seq<u8> {
    Seq::new((n / 8 + if n % 8 == 0 { 0int } else { 1int }) as nat, |i: int| 0u8)
}

/// One bit per piece, most significant bit first within each byte.
#[derive(Clone, Debug, PartialEq, Eq)]
pub struct Bitfield {
    pub content: Vec<u8>,
}

impl Bitfield {
    /// Number of bits that the content holds.
    pub open spec fn capacity(&self) -> int {
        self.content@.len() as int * 8
    }

    /// Whether the bit of piece `i` is set; false beyond the content.
    pub open spec fn has(&self, i: int) -> bool {
        0 <= i < self.capacity() && byte_has(self.content@[i / 8], i % 8)
    }

    /// No bit at or beyond `n` is set.
    pub open spec fn padding_clear(&self, n: int) -> bool {
        forall|i: int| n <= i ==> !#[trigger] self.has(i)
    }

    /// `self` is `before` with the bit of piece `i` set.
    pub open spec fn acquired_from(&self, before: Bitfield, i: int) -> bool {
        &&& self.content@.len() == before.content@.len()
        &&& forall|j: int| #[trigger] self.has(j) == (j == i || before.has(j))
    }

    /// Whether `self` has a piece that `other` does not.
    pub open spec fn has_missing_from(&self, other: &Bitfield) -> bool {
        exists|i: int| #[trigger] self.has(i) && !other.has(i)
    }

    pub fn new(bytes: Vec<u8>) -> (r: Self)
        ensures
            r == (Bitfield { content: bytes }),
    {
        Bitfield { content: bytes }
    }

    /// An empty bitfield for `num_of_pieces` pieces, padded to whole bytes.
    pub fn init(num_of_pieces: usize) -> (r: Self)
        ensures
            r.content@ == empty_content(num_of_pieces as int),
            r.content@.len() == num_of_pieces / 8 + if num_of_pieces % 8 == 0 { 0int } else { 1int },
            r.capacity() >= num_of_pieces,
            forall|i: int| !#[trigger] r.has(i),
            r.padding_clear(num_of_pieces as int),
    {
        let len: usize = num_of_pieces / 8 + if num_of_pieces % 8 == 0 { 0 } else { 1 };
        let r = Bitfield { content: vec![0u8; len] };
        assert(r.content@ =~= empty_content(num_of_pieces as int));
        assert forall|i: int| !#[trigger] r.has(i) by {
            if 0 <= i < r.capacity() {
                lemma_zero_byte((i % 8) as u8);
            }
        }
        r
    }

    /// Sets the bit of piece `piece_idx`.
    pub fn piece_acquired(&mut self, piece_idx: usize)
        requires
            piece_idx < old(self).capacity(),
        ensures
            final(self).acquired_from(*old(self), piece_idx as int),
    {
        let byte_idx = piece_idx / 8;
        let bit_idx = (piece_idx % 8) as u8;
        let mask: u8 = 0x80u8 >> bit_idx;
        let b = self.content[byte_idx];
        self.content[byte_idx] = b | mask;
        proof {
            let before = *old(self);
            assert forall|j: int| #[trigger] self.has(j) == (j == piece_idx || before.has(j)) by {
                if 0 <= j < self.capacity() {
                    if j / 8 == byte_idx as int {
                        lemma_set_bit(b, bit_idx, (j % 8) as u8);
                    } else {
                        assert(self.content@[j / 8] == before.content@[j / 8]);
                    }
                }
            }
        }
    }

    /// Whether the bit of piece `piece_idx` is set.
    pub fn has_piece(&self, piece_idx: usize) -> (r: bool)
        ensures
            r == self.has(piece_idx as int),
    {
        let byte_idx = piece_idx / 8;
        if byte_idx >= self.content.len() {
            return false;
        }
        let bit_idx = (piece_idx % 8) as u8;
        self.content[byte_idx] & (0x80u8 >> bit_idx) != 0
    }

    /// Whether `self` has any piece that `other` does not.
    pub fn has_any_missing_pieces_from(&self, other: &Bitfield) -> (r: bool)
        ensures
            r == self.has_missing_from(other),
    {
        let n = self.content.len();
        let mut idx: usize = 0;
        while idx < n
            invariant
                n == self.content@.len(),
                idx <= n,
                forall|i: int| 0 <= i < idx * 8 ==> !(#[trigger] self.has(i) && !other.has(i)),
            decreases n - idx,
        {
            let s = self.content[idx];
            let o: u8 = if idx < other.content.len() { other.content[idx] } else { 0 };
            let mut k: u8 = 0;
            while k < 8
                invariant
                    n == self.content@.len(),
                    idx < n,
                    k <= 8,
                    s == self.content@[idx as int],
                    idx < other.content@.len() ==> o == other.content@[idx as int],
                    idx >= other.content@.len() ==> o == 0,
                    forall|i: int| 0 <= i < idx * 8 + k ==> !(#[trigger] self.has(i) && !other.has(i)),
                decreases 8 - k,
            {
                let i: Ghost<int> = Ghost(idx * 8 + k);
                assert(i@ / 8 == idx as int && i@ % 8 == k as int);
                proof {
                    if idx >= other.content.len() {
                        lemma_zero_byte(k);
                    }
                }
                if s & (0x80u8 >> k) != 0 && o & (0x80u8 >> k) == 0 {
                    assert(self.has(i@) && !other.has(i@));
                    return true;
                }
                k = k + 1;
            }
            idx = idx + 1;
        }
        false
    }

    /// The indices of the set bits, in increasing order.
    pub fn to_available_pieces_vec(&self) -> (r: Vec<usize>)
        requires
            self.capacity() <= usize::MAX,
        ensures
            forall|a: int, b: int| 0 <= a < b < r@.len() ==> r@[a] < r@[b],
            forall|a: int| 0 <= a < r@.len() ==> self.has(#[trigger] r@[a] as int),
            forall|i: int| #[trigger] self.has(i) ==> r@.contains(i as usize),
    {
        let mut r: Vec<usize> = Vec::new();
        let n = self.content.len();
        let mut idx: usize = 0;
        while idx < n
            invariant
                n == self.content@.len(),
                n * 8 <= usize::MAX,
                idx <= n,
                forall|a: int, b: int| 0 <= a < b < r@.len() ==> r@[a] < r@[b],
                forall|a: int| 0 <= a < r@.len() ==> r@[a] < idx * 8,
                forall|a: int| 0 <= a < r@.len() ==> self.has(#[trigger] r@[a] as int),
                forall|i: int| 0 <= i < idx * 8 && #[trigger] self.has(i) ==> r@.contains(i as usize),
            decreases n - idx,
        {
            let s = self.content[idx];
            let mut k: usize = 0;
            while k < 8
                invariant
                    n == self.content@.len(),
                    n * 8 <= usize::MAX,
                    idx < n,
                    k <= 8,
                    s == self.content@[idx as int],
                    forall|a: int, b: int| 0 <= a < b < r@.len() ==> r@[a] < r@[b],
                    forall|a: int| 0 <= a < r@.len() ==> r@[a] < idx * 8 + k,
                    forall|a: int| 0 <= a < r@.len() ==> self.has(#[trigger] r@[a] as int),
                    forall|i: int| 0 <= i < idx * 8 + k && #[trigger] self.has(i) ==> r@.contains(i as usize),
                decreases 8 - k,
            {
                let p: usize = idx * 8 + k;
                assert(p as int / 8 == idx as int && p as int % 8 == k as int);
                if s & (0x80u8 >> (k as u8)) != 0 {
                    let ghost before = r@;
                    r.push(p);
                    proof {
                        assert(r@[r@.len() - 1] == p);
                        assert forall|i: int| 0 <= i < idx * 8 + k + 1 && #[trigger] self.has(i)
                            implies r@.contains(i as usize) by {
                            if i == p as int {
                                assert(r@[r@.len() - 1] == i as usize);
                            } else {
                                assert(before.contains(i as usize));
                                let w = choose|w: int| 0 <= w < before.len() && before[w] == i as usize;
                                assert(r@[w] == i as usize);
                            }
                        }
                    }
                }
                k = k + 1;
            }
            idx = idx + 1;
        }
        r
    }
}

/// Bits past the piece count stay clear when pieces within the count are set:
/// an initialised bitfield keeps its padding zero under `piece_acquired`.
pub proof fn lemma_padding_stays_clear(before: Bitfield, after: Bitfield, n: int, i: int)
    requires
        before.padding_clear(n),
        i < n,
        after.acquired_from(before, i),
    ensures
        after.padding_clear(n),
{
    assert forall|j: int| n <= j implies !#[trigger] after.has(j) by {
        assert(!before.has(j));
    }
}

} // verus!
