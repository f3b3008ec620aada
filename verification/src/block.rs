use vstd::bytes::*;
use vstd::prelude::*;

verus! {

/// Number of 64-bit words in one working block.
pub const BLOCK_U64S: usize = 128;

/// Number of bytes in one working block.
pub const BLOCK_BYTES: usize = 1024;

/// Little-endian byte image of a word sequence.
pub open spec fn words_to_bytes(ws: Seq<u64>) -> Seq<u8> {
    Seq::new(ws.len() * 8, |i: int| spec_u64_to_le_bytes(ws[i / 8])[i % 8])
}

/// The word sequence read back from a little-endian byte image.
pub open spec fn bytes_to_words(bs: Seq<u8>) -> Seq<u64> {
    Seq::new(bs.len() / 8, |i: int| spec_u64_from_le_bytes(bs.subrange(8 * i, 8 * i + 8)))
}

/// Word-wise XOR of two equal-length word sequences.
pub open spec fn xor_words(a: Seq<u64>, b: Seq<u64>) -> Seq<u64> {
    Seq::new(a.len(), |i: int| a[i] ^ b[i])
}

/// The all-zero block contents.
pub open spec fn zero_words() -> Seq<u64> {
    Seq::new(BLOCK_U64S as nat, |i: int| 0u64)
}

/// A 1 KiB Argon2 working block, addressed as 128 little-endian 64-bit words.
pub struct Block {
    w: Vec<u64>,
}

impl View for Block {
    type V = Seq<u64>;

    closed spec fn view(&self) -> Seq<u64> {
        self.w@
    }
}

impl Block {
    /// A block always holds exactly 128 words.
    pub open spec fn wf(&self) -> bool {
        self@.len() == BLOCK_U64S
    }

    /// Read the word at index `i`.
    pub fn get(&self, i: usize) -> (r: u64)
        requires
            self.wf(),
            i < BLOCK_U64S,
        ensures
            r == self@[i as int],
    {
        self.w[i]
    }

    /// Overwrite the word at index `i`.
    pub fn set(&mut self, i: usize, v: u64)
        requires
            old(self).wf(),
            i < BLOCK_U64S,
        ensures
            final(self).wf(),
            final(self)@ == old(self)@.update(i as int, v),
    {
        self.w.set(i, v);
    }

    /// The little-endian byte image of the block.
    pub fn as_u8(&self) -> (r: Vec<u8>)
        requires
            self.wf(),
        ensures
            r@ == words_to_bytes(self@),
            r@.len() == BLOCK_BYTES,
    {
        proof {
            lemma_auto_spec_u64_to_from_le_bytes();
        }
        let mut r: Vec<u8> = Vec::new();
        let mut i: usize = 0;
        while i < BLOCK_U64S
            invariant
                self.wf(),
                i <= BLOCK_U64S,
                r@ == words_to_bytes(self@.take(i as int)),
                forall|x: u64| #[trigger] spec_u64_to_le_bytes(x).len() == 8,
            decreases BLOCK_U64S - i,
        {
            let mut bytes = u64_to_le_bytes(self.w[i]);
            r.append(&mut bytes);
            proof {
                assert(r@ =~= words_to_bytes(self@.take(i + 1)));
            }
            i = i + 1;
        }
        proof {
            assert(self@.take(BLOCK_U64S as int) =~= self@);
        }
        r
    }

    /// The block whose words are read from a 1024-byte little-endian image.
    pub fn from_u8(bs: &[u8]) -> (b: Block)
        requires
            bs@.len() == BLOCK_BYTES,
        ensures
            b.wf(),
            b@ == bytes_to_words(bs@),
    {
        let mut w: Vec<u64> = Vec::new();
        let mut i: usize = 0;
        while i < BLOCK_U64S
            invariant
                bs@.len() == BLOCK_BYTES,
                i <= BLOCK_U64S,
                w@ == bytes_to_words(bs@).take(i as int),
            decreases BLOCK_U64S - i,
        {
            let chunk = vstd::slice::slice_subrange(bs, 8 * i, 8 * i + 8);
            w.push(u64_from_le_bytes(chunk));
            proof {
                assert(w@ =~= bytes_to_words(bs@).take(i + 1));
            }
            i = i + 1;
        }
        proof {
            assert(bytes_to_words(bs@).take(BLOCK_U64S as int) =~= bytes_to_words(bs@));
        }
        Block { w }
    }

    /// An exact copy of the block.
    pub fn duplicate(&self) -> (r: Block)
        requires
            self.wf(),
        ensures
            r.wf(),
            r@ == self@,
    {
        let mut w: Vec<u64> = Vec::new();
        let mut i: usize = 0;
        while i < BLOCK_U64S
            invariant
                self.wf(),
                i <= BLOCK_U64S,
                w@ == self@.take(i as int),
            decreases BLOCK_U64S - i,
        {
            w.push(self.w[i]);
            proof {
                assert(w@ =~= self@.take(i + 1));
            }
            i = i + 1;
        }
        proof {
            assert(self@.take(BLOCK_U64S as int) =~= self@);
        }
        Block { w }
    }

    /// XOR another block into this one, word by word.
    pub fn xor_with(&mut self, other: &Block)
        requires
            old(self).wf(),
            other.wf(),
        ensures
            final(self).wf(),
            final(self)@ == xor_words(old(self)@, other@),
    {
        let mut i: usize = 0;
        while i < BLOCK_U64S
            invariant
                self.wf(),
                other.wf(),
                i <= BLOCK_U64S,
                self@.len() == BLOCK_U64S,
                forall|j: int| 0 <= j < i ==> self@[j] == (old(self)@[j] ^ other@[j]),
                forall|j: int| i <= j < BLOCK_U64S ==> self@[j] == old(self)@[j],
            decreases BLOCK_U64S - i,
        {
            let v = self.w[i] ^ other.w[i];
            self.w.set(i, v);
            i = i + 1;
        }
        proof {
            assert(self@ =~= xor_words(old(self)@, other@));
        }
    }
}

/// A fresh all-zero block.
pub fn zero() -> (b: Block)
    ensures
        b.wf(),
        b@ == zero_words(),
{
    let mut w: Vec<u64> = Vec::new();
    let mut i: usize = 0;
    while i < BLOCK_U64S
        invariant
            i <= BLOCK_U64S,
            w@ == zero_words().take(i as int),
        decreases BLOCK_U64S - i,
    {
        w.push(0);
        proof {
            assert(w@ =~= zero_words().take(i + 1));
        }
        i = i + 1;
    }
    proof {
        assert(zero_words().take(BLOCK_U64S as int) =~= zero_words());
    }
    Block { w }
}

/// Index of the block at `(lane, col)` in the row-major matrix buffer.
pub open spec fn bi(lane: int, col: int, lanelen: int) -> int {
    lane * lanelen + col
}

/// `(lane, col)` within bounds addresses a buffer slot within bounds.
proof fn lemma_bi_bounds(lane: int, col: int, lanes: int, lanelen: int)
    by (nonlinear_arith)
    requires
        0 <= lane < lanes,
        0 <= col < lanelen,
    ensures
        0 <= bi(lane, col, lanelen) < lanes * lanelen,
{
}

/// XOR of the blocks in column `col` of rows `0..n` of the matrix contents.
pub open spec fn xor_column_words(m: Seq<Seq<u64>>, lanelen: int, col: int, n: nat) -> Seq<u64>
    decreases n,
{
    if n <= 1 {
        m[bi(0, col, lanelen)]
    } else {
        xor_words(xor_column_words(m, lanelen, col, (n - 1) as nat), m[bi(n - 1, col, lanelen)])
    }
}

/// The `lanes x lanelen` working matrix: a row-major buffer of blocks.
pub struct Matrix {
    blocks: Vec<Block>,
    lanes: u32,
    lanelen: u32,
}

impl View for Matrix {
    type V = Seq<Seq<u64>>;

    closed spec fn view(&self) -> Seq<Seq<u64>> {
        Seq::new(self.blocks@.len() as nat, |i: int| self.blocks@[i]@)
    }
}

impl Matrix {
    /// Row count.
    pub closed spec fn spec_lanes(&self) -> u32 {
        self.lanes
    }

    /// Row length in blocks.
    pub closed spec fn spec_lanelen(&self) -> u32 {
        self.lanelen
    }

    /// The buffer holds `lanes * lanelen` well-formed blocks.
    pub open spec fn wf(&self) -> bool {
        &&& self@.len() == self.spec_lanes() * self.spec_lanelen()
        &&& (forall|i: int| 0 <= i < self@.len() ==> (#[trigger] self@[i]).len() == BLOCK_U64S)
        &&& self.spec_lanes() >= 1
        &&& self.spec_lanelen() >= 1
    }

    /// A fresh matrix of `lanes * lanelen` zero blocks.
    pub fn new(lanes: u32, lanelen: u32) -> (m: Matrix)
        requires
            1 <= lanes,
            1 <= lanelen,
            lanes * lanelen <= u32::MAX,
        ensures
            m.wf(),
            m.spec_lanes() == lanes,
            m.spec_lanelen() == lanelen,
            m@ == Seq::new((lanes * lanelen) as nat, |i: int| zero_words()),
    {
        let total: usize = (lanes as usize) * (lanelen as usize);
        let mut blocks: Vec<Block> = Vec::new();
        let mut i: usize = 0;
        while i < total
            invariant
                i <= total,
                blocks@.len() == i,
                forall|j: int| 0 <= j < i ==> (#[trigger] blocks@[j]).wf(),
                forall|j: int| 0 <= j < i ==> (#[trigger] blocks@[j])@ == zero_words(),
            decreases total - i,
        {
            blocks.push(zero());
            i = i + 1;
        }
        let m = Matrix { blocks, lanes, lanelen };
        proof {
            assert(m@ =~= Seq::new((lanes * lanelen) as nat, |i: int| zero_words()));
        }
        m
    }

    /// Shared borrow of the block at `(lane, col)`.
    pub fn get_block(&self, lane: u32, col: u32) -> (r: &Block)
        requires
            self.wf(),
            lane < self.spec_lanes(),
            col < self.spec_lanelen(),
        ensures
            r.wf(),
            r@ == self@[bi(lane as int, col as int, self.spec_lanelen() as int)],
    {
        proof {
            lemma_bi_bounds(lane as int, col as int, self.lanes as int, self.lanelen as int);
        }
        let n = self.blocks.len();
        proof {
            assert(self@.len() == self.blocks@.len());
            assert((lane as int) * (self.lanelen as int) + (col as int) < n as int);
        }
        let idx: usize = (lane as usize) * (self.lanelen as usize) + (col as usize);
        let r = &self.blocks[idx];
        proof {
            assert(*r == self.blocks@[idx as int]);
            assert(r@ == self@[bi(lane as int, col as int, self.spec_lanelen() as int)]);
            assert(self@[bi(lane as int, col as int, self.spec_lanelen() as int)].len() == BLOCK_U64S);
        }
        r
    }

    /// Replace the block at `(lane, col)`.
    pub fn set_block(&mut self, lane: u32, col: u32, b: Block)
        requires
            old(self).wf(),
            lane < old(self).spec_lanes(),
            col < old(self).spec_lanelen(),
            b.wf(),
        ensures
            final(self).wf(),
            final(self).spec_lanes() == old(self).spec_lanes(),
            final(self).spec_lanelen() == old(self).spec_lanelen(),
            final(self)@ == old(self)@.update(
                bi(lane as int, col as int, old(self).spec_lanelen() as int),
                b@,
            ),
    {
        proof {
            lemma_bi_bounds(lane as int, col as int, self.lanes as int, self.lanelen as int);
        }
        let n = self.blocks.len();
        proof {
            assert(self@.len() == self.blocks@.len());
            assert((lane as int) * (self.lanelen as int) + (col as int) < n as int);
        }
        let idx: usize = (lane as usize) * (self.lanelen as usize) + (col as usize);
        self.blocks.set(idx, b);
        proof {
            assert(self@ =~= old(self)@.update(
                bi(lane as int, col as int, old(self).spec_lanelen() as int),
                b@,
            ));
        }
    }

    /// Overwrite every block with zeros; the working memory is wiped before
    /// the matrix is released.
    pub fn wipe(&mut self)
        requires
            old(self).wf(),
        ensures
            final(self).wf(),
            final(self).spec_lanes() == old(self).spec_lanes(),
            final(self).spec_lanelen() == old(self).spec_lanelen(),
            forall|i: int| 0 <= i < final(self)@.len() ==> final(self)@[i] == zero_words(),
    {
        let n = self.blocks.len();
        let mut i: usize = 0;
        while i < n
            invariant
                self.wf(),
                self.spec_lanes() == old(self).spec_lanes(),
                self.spec_lanelen() == old(self).spec_lanelen(),
                n == self@.len(),
                i <= n,
                forall|j: int| 0 <= j < i ==> self@[j] == zero_words(),
            decreases n - i,
        {
            let ghost pre = self@;
            let zb = zero();
            let ghost zv = zb@;
            self.blocks.set(i, zb);
            proof {
                assert(self@ =~= pre.update(i as int, zv));
            }
            i = i + 1;
        }
    }

    /// XOR the blocks of column `col` together across all lanes.
    pub fn xor_column(&self, col: u32) -> (r: Block)
        requires
            self.wf(),
            col < self.spec_lanelen(),
        ensures
            r.wf(),
            r@ == xor_column_words(
                self@,
                self.spec_lanelen() as int,
                col as int,
                self.spec_lanes() as nat,
            ),
    {
        let mut r = self.get_block(0, col).duplicate();
        let mut row: u32 = 1;
        while row < self.lanes
            invariant
                self.wf(),
                col < self.spec_lanelen(),
                1 <= row <= self.spec_lanes(),
                r.wf(),
                r@ == xor_column_words(
                    self@,
                    self.spec_lanelen() as int,
                    col as int,
                    row as nat,
                ),
            decreases self.spec_lanes() - row,
        {
            let other = self.get_block(row, col);
            r.xor_with(other);
            row = row + 1;
        }
        r
    }
}

} // verus!
