//! Block signatures of a basis buffer: per-block weak and strong checksums,
//! with a derived index from weak checksum to the ordered chain of block
//! indices sharing it.

use vstd::prelude::*;
use vstd::slice::{slice_subrange, slice_to_vec};
use vstd::arithmetic::div_mod::{
    lemma_fundamental_div_mod, lemma_fundamental_div_mod_converse_div, lemma_mod_pos_bound,
};
use std::collections::HashMap;
use crate::checksum::{strong_sum, strong_trunc, weak_combine, weak_pair, weak_sum};
use crate::wire::{append_bytes, le32, lemma_le32_read, push_le32, read_le32, read_le32_at};
use crate::{MagicNumber, RsyncResult, RsyncStats};

verus! {

broadcast use vstd::std_specs::hash::group_hash_axioms;

/// The checksum pair of one basis block.
pub struct BlockSig {
    pub weak: u32,
    pub strong: Vec<u8>,
}

/// Immutable signature of a basis buffer: block checksums in block order and
/// a derived lookup index keyed by weak checksum. Block `i` covers basis
/// offset `i * block_len`; the last block may be shorter.
pub struct Signature {
    pub block_len: usize,
    pub strong_len: usize,
    pub blocks: Vec<BlockSig>,
    pub index: HashMap<u32, Vec<usize>>,
}

/// Number of blocks a buffer of `len` bytes yields with block length `bl`:
/// the ceiling of `len / bl`.
pub open spec fn num_blocks(len: int, bl: int) -> int {
    (len + bl - 1) / bl
}

/// The bytes of block `i` of `basis` under block length `bl`.
pub open spec fn block_at(basis: Seq<u8>, bl: int, i: int) -> Seq<u8> {
    basis.subrange(
        i * bl,
        if (i + 1) * bl <= basis.len() {
            (i + 1) * bl
        } else {
            basis.len() as int
        },
    )
}

/// The (weak, strong) checksum pair of block `i`.
pub open spec fn sig_block_spec(basis: Seq<u8>, bl: int, sl: int, i: int) -> (u32, Seq<u8>) {
    (weak_sum(block_at(basis, bl, i)), strong_trunc(block_at(basis, bl, i), sl))
}

/// The full block list a signature of `basis` carries.
pub open spec fn generate_spec(basis: Seq<u8>, bl: int, sl: int) -> Seq<(u32, Seq<u8>)> {
    Seq::new(num_blocks(basis.len() as int, bl) as nat, |i: int| sig_block_spec(basis, bl, sl, i))
}

/// A collision chain: every entry is a valid block index whose weak checksum
/// is `w`, and the chain is strictly ascending.
pub open spec fn chain_ok(chain: Seq<usize>, blocks: Seq<(u32, Seq<u8>)>, w: u32) -> bool {
    &&& forall|j: int|
        0 <= j < chain.len() ==> (#[trigger] chain[j]) < blocks.len() && blocks[chain[j] as int].0
            == w
    &&& forall|j1: int, j2: int| 0 <= j1 < j2 < chain.len() ==> chain[j1] < chain[j2]
}

/// Every chain in the index is well formed for its key.
pub open spec fn index_sound(index: Map<u32, Vec<usize>>, blocks: Seq<(u32, Seq<u8>)>) -> bool {
    forall|w: u32| index.contains_key(w) ==> chain_ok((#[trigger] index[w])@, blocks, w)
}

/// Every block index appears in the chain of its weak checksum.
pub open spec fn index_complete(index: Map<u32, Vec<usize>>, blocks: Seq<(u32, Seq<u8>)>) -> bool {
    forall|i: int|
        0 <= i < blocks.len() ==> index.contains_key((#[trigger] blocks[i]).0)
            && index[blocks[i].0]@.contains(i as usize)
}

/// The index carries no stray key: every chain is non-empty, so with
/// soundness each key present is the weak checksum of some block. Together
/// with soundness and completeness this pins the index down to exactly the
/// one derived from the block list: its keys are the weak checksums that
/// occur, and each chain is the ascending list of all block indices carrying
/// that checksum.
pub open spec fn index_tight(index: Map<u32, Vec<usize>>) -> bool {
    forall|w: u32| index.contains_key(w) ==> (#[trigger] index[w])@.len() > 0
}

proof fn lemma_chain_determined(
    c1: Seq<usize>,
    c2: Seq<usize>,
    blocks: Seq<(u32, Seq<u8>)>,
    w: u32,
    m: int,
)
    requires
        blocks.len() <= usize::MAX,
        m >= -1,
        chain_ok(c1, blocks, w),
        chain_ok(c2, blocks, w),
        forall|j: int| 0 <= j < c1.len() ==> (#[trigger] c1[j]) > m,
        forall|j: int| 0 <= j < c2.len() ==> (#[trigger] c2[j]) > m,
        forall|q: int|
            m < q < blocks.len() && (#[trigger] blocks[q]).0 == w ==> c1.contains(q as usize),
        forall|q: int|
            m < q < blocks.len() && (#[trigger] blocks[q]).0 == w ==> c2.contains(q as usize),
    ensures
        c1 == c2,
    decreases blocks.len() - m,
{
    if c1.len() == 0 && c2.len() == 0 {
        assert(c1 =~= c2);
    } else if c1.len() == 0 {
        let q = c2[0];
        assert(q < blocks.len() && blocks[q as int].0 == w);
        assert(c1.contains(q));
        assert(false);
    } else if c2.len() == 0 {
        let q = c1[0];
        assert(q < blocks.len() && blocks[q as int].0 == w);
        assert(c2.contains(q));
        assert(false);
    } else {
        let h1 = c1[0];
        let h2 = c2[0];
        // each head is the least matching block index above m, so they agree
        assert(c2.contains(h1));
        let j1 = choose|j: int| 0 <= j < c2.len() && c2[j] == h1;
        if j1 > 0 {
            assert(c2[0] < c2[j1]);
        }
        assert(c1.contains(h2));
        let j2 = choose|j: int| 0 <= j < c1.len() && c1[j] == h2;
        if j2 > 0 {
            assert(c1[0] < c1[j2]);
        }
        assert(h1 == h2);
        let t1 = c1.subrange(1, c1.len() as int);
        let t2 = c2.subrange(1, c2.len() as int);
        assert(chain_ok(t1, blocks, w));
        assert(chain_ok(t2, blocks, w));
        assert forall|j: int| 0 <= j < t1.len() implies (#[trigger] t1[j]) > h1 as int by {
            assert(t1[j] == c1[j + 1]);
            assert(c1[0] < c1[j + 1]);
        }
        assert forall|j: int| 0 <= j < t2.len() implies (#[trigger] t2[j]) > h1 as int by {
            assert(t2[j] == c2[j + 1]);
            assert(c2[0] < c2[j + 1]);
        }
        assert forall|q: int|
            (h1 as int) < q < blocks.len() && (#[trigger] blocks[q]).0 == w implies t1.contains(
            q as usize,
        ) by {
            assert(c1.contains(q as usize));
            let j = choose|j: int| 0 <= j < c1.len() && c1[j] == q as usize;
            assert(j != 0);
            assert(t1[j - 1] == q as usize);
        }
        assert forall|q: int|
            (h1 as int) < q < blocks.len() && (#[trigger] blocks[q]).0 == w implies t2.contains(
            q as usize,
        ) by {
            assert(c2.contains(q as usize));
            let j = choose|j: int| 0 <= j < c2.len() && c2[j] == q as usize;
            assert(j != 0);
            assert(t2[j - 1] == q as usize);
        }
        lemma_chain_determined(t1, t2, blocks, w, h1 as int);
        assert forall|j: int| 0 <= j < c1.len() implies c1[j] == c2[j] by {
            if j > 0 {
                assert(c1[j] == t1[j - 1]);
                assert(c2[j] == t2[j - 1]);
            }
        }
        assert(c1 =~= c2);
    }
}

/// The derived index is a function of the block list alone: any two indices
/// that are sound, complete and without stray keys for the same block list
/// have the same keys and, key for key, the same chains. A signature's index
/// is therefore rebuildable deterministically from its block list.
pub proof fn lemma_index_determined(
    ix1: Map<u32, Vec<usize>>,
    ix2: Map<u32, Vec<usize>>,
    blocks: Seq<(u32, Seq<u8>)>,
)
    requires
        blocks.len() <= usize::MAX,
        index_sound(ix1, blocks),
        index_complete(ix1, blocks),
        index_tight(ix1),
        index_sound(ix2, blocks),
        index_complete(ix2, blocks),
        index_tight(ix2),
    ensures
        forall|w: u32| #[trigger] ix1.contains_key(w) <==> #[trigger] ix2.contains_key(w),
        forall|w: u32| #[trigger] ix1.contains_key(w) ==> ix1[w]@ == ix2[w]@,
{
    assert forall|w: u32| ix1.contains_key(w) implies ix2.contains_key(w) by {
        let c = ix1[w]@;
        let q = c[0];
        assert(q < blocks.len() && blocks[q as int].0 == w);
        assert(ix2.contains_key(blocks[q as int].0));
    }
    assert forall|w: u32| ix2.contains_key(w) implies ix1.contains_key(w) by {
        let c = ix2[w]@;
        let q = c[0];
        assert(q < blocks.len() && blocks[q as int].0 == w);
        assert(ix1.contains_key(blocks[q as int].0));
    }
    assert forall|w: u32| ix1.contains_key(w) implies ix1[w]@ == ix2[w]@ by {
        assert(ix2.contains_key(w));
        assert forall|q: int|
            -1 < q < blocks.len() && (#[trigger] blocks[q]).0 == w implies ix1[w]@.contains(
            q as usize,
        ) by {
            assert(ix1[blocks[q].0]@.contains(q as usize));
        }
        assert forall|q: int|
            -1 < q < blocks.len() && (#[trigger] blocks[q]).0 == w implies ix2[w]@.contains(
            q as usize,
        ) by {
            assert(ix2[blocks[q].0]@.contains(q as usize));
        }
        lemma_chain_determined(ix1[w]@, ix2[w]@, blocks, w, -1);
    }
}

impl Signature {
    /// The mathematical content of the signature: the block list as
    /// (weak, strong) pairs in block order.
    pub open spec fn blocks_model(&self) -> Seq<(u32, Seq<u8>)> {
        self.blocks@.map_values(|b: BlockSig| (b.weak, b.strong@))
    }

    /// Well-formedness: positive block length, strong length within the
    /// digest, uniform strong lengths, and the derived index rebuildable
    /// deterministically from the block list alone: sound, complete, and
    /// without stray keys.
    pub open spec fn wf(&self) -> bool {
        &&& self.block_len > 0
        &&& 0 < self.strong_len <= 16
        &&& (self.blocks@.len() == 0 || (self.blocks@.len() - 1) * (self.block_len as int)
            <= u64::MAX as int)
        &&& forall|i: int|
            0 <= i < self.blocks@.len() ==> (#[trigger] self.blocks@[i]).strong@.len()
                == self.strong_len
        &&& index_sound(self.index@, self.blocks_model())
        &&& index_complete(self.index@, self.blocks_model())
        &&& index_tight(self.index@)
    }

    /// Scans the basis once, partitions it into blocks of `block_len` bytes
    /// (the last block may be shorter), records each block's weak and strong
    /// checksum, and builds the weak-checksum index. An empty basis yields a
    /// signature with zero blocks. Rejects a zero block length and a strong
    /// length of zero or beyond the digest length.
    pub fn generate(basis: &[u8], block_len: usize, strong_len: usize) -> (r: Result<
        Signature,
        RsyncResult,
    >)
        ensures
            match r {
                Ok(sig) => {
                    &&& block_len > 0
                    &&& 0 < strong_len <= 16
                    &&& sig.wf()
                    &&& sig.block_len == block_len
                    &&& sig.strong_len == strong_len
                    &&& sig.blocks_model() == generate_spec(
                        basis@,
                        block_len as int,
                        strong_len as int,
                    )
                },
                Err(e) => {
                    &&& e == RsyncResult::ParamError
                    &&& (block_len == 0 || strong_len == 0 || strong_len > 16)
                },
            },
    {
        if block_len == 0 || strong_len == 0 || strong_len > 16 {
            return Err(RsyncResult::ParamError);
        }
        let ghost bl = block_len as int;
        let ghost sl = strong_len as int;
        proof {
            lemma_num_blocks(basis@.len() as int, bl);
        }
        let n: usize = basis.len();
        let nb: usize = n / block_len + (
        if n % block_len != 0 {
            1
        } else {
            0
        });
        let mut blocks: Vec<BlockSig> = Vec::new();
        let mut k: usize = 0;
        while k < nb
            invariant
                block_len > 0,
                0 < strong_len <= 16,
                n as int == basis@.len(),
                nb == num_blocks(basis@.len() as int, bl),
                bl == block_len as int,
                sl == strong_len as int,
                k <= nb,
                blocks@.len() == k,
                forall|i: int|
                    0 <= i < k ==> ((#[trigger] blocks@[i]).weak, blocks@[i].strong@)
                        == sig_block_spec(basis@, bl, sl, i),
                forall|i: int|
                    0 <= i < k ==> (#[trigger] blocks@[i]).strong@.len() == strong_len,
            decreases nb - k,
        {
            proof {
                lemma_num_blocks(basis@.len() as int, bl);
                assert(basis@.len() > 0);
                assert(k as int * bl < basis@.len()) by (nonlinear_arith)
                    requires
                        0 <= k as int,
                        k as int <= num_blocks(basis@.len() as int, bl) - 1,
                        bl >= 1,
                        (num_blocks(basis@.len() as int, bl) - 1) * bl < basis@.len(),
                ;
            }
            let off: usize = k * block_len;
            let wend: usize = if basis.len() - off < block_len {
                basis.len()
            } else {
                off + block_len
            };
            proof {
                assert((k as int + 1) * bl == k as int * bl + bl) by (nonlinear_arith);
            }
            let blk = slice_subrange(basis, off, wend);
            proof {
                assert(blk@ =~= block_at(basis@, bl, k as int));
            }
            let (wa, wb) = weak_pair(blk);
            let weak = weak_combine(wa, wb, Ghost(blk@));
            let strong = strong_sum(blk, strong_len);
            blocks.push(BlockSig { weak, strong });
            k = k + 1;
        }
        let index = build_index(&blocks);
        let sig = Signature { block_len, strong_len, blocks, index };
        proof {
            assert(sig.blocks_model() =~= generate_spec(basis@, bl, sl));
            lemma_num_blocks(basis@.len() as int, bl);
            if sig.blocks@.len() >= 1 {
                assert((sig.blocks@.len() - 1) * bl < basis@.len());
            }
        }
        Ok(sig)
    }

    /// Signs a basis with the fixed block length 2048 and strong length 16
    /// (the full digest), also reporting summary counters.
    pub fn new(basis: &[u8]) -> (r: Result<(Signature, RsyncStats), RsyncResult>)
        ensures
            match r {
                Ok((sig, stats)) => {
                    &&& sig.wf()
                    &&& sig.block_len == 2048
                    &&& sig.strong_len == 16
                    &&& sig.blocks_model() == generate_spec(basis@, 2048, 16)
                    &&& stats.sig_blocks == sig.blocks_model().len()
                    &&& stats.block_len == 2048
                    &&& stats.in_bytes == basis@.len()
                },
                Err(_) => false,
            },
    {
        let sig = match Signature::generate(basis, 2048, 16) {
            Ok(sig) => sig,
            Err(_) => {
                proof {
                    assert(false);
                }
                return Err(RsyncResult::InternalError);
            },
        };
        let mut stats = RsyncStats::new();
        stats.sig_blocks = sig.blocks.len() as u64;
        stats.block_len = 2048;
        stats.in_bytes = basis.len() as u64;
        Ok((sig, stats))
    }

    /// Serializes the signature: header of magic tag, block length, strong
    /// length and block count, then one entry per block.
    pub fn into_bytes(self) -> (r: Vec<u8>)
        requires
            self.block_len <= u32::MAX,
            self.strong_len <= u32::MAX,
            self.blocks@.len() <= u32::MAX,
        ensures
            r@ == sig_bytes_spec(
                self.block_len as int,
                self.strong_len as int,
                self.blocks_model(),
            ),
    {
        let ghost model = self.blocks_model();
        let mut out: Vec<u8> = Vec::new();
        push_le32(&mut out, MagicNumber::MD5.value());
        push_le32(&mut out, self.block_len as u32);
        push_le32(&mut out, self.strong_len as u32);
        push_le32(&mut out, self.blocks.len() as u32);
        let ghost header = out@;
        let mut k: usize = 0;
        while k < self.blocks.len()
            invariant
                model == self.blocks_model(),
                k <= self.blocks@.len(),
                out@ == header + entries_bytes(model.subrange(0, k as int)),
            decreases self.blocks@.len() - k,
        {
            let ghost pre = out@;
            push_le32(&mut out, self.blocks[k].weak);
            append_bytes(&mut out, self.blocks[k].strong.as_slice());
            proof {
                let prefix2 = model.subrange(0, k + 1);
                assert(prefix2.drop_last() =~= model.subrange(0, k as int));
                assert(prefix2.last() == model[k as int]);
                assert(out@ =~= header + entries_bytes(prefix2));
            }
            k = k + 1;
        }
        proof {
            assert(model.subrange(0, model.len() as int) =~= model);
            assert(out@ =~= sig_bytes_spec(
                self.block_len as int,
                self.strong_len as int,
                model,
            ));
        }
        out
    }

    /// Deserializes a signature, validating the header tag, the header
    /// fields, and the exact buffer length, and rebuilding the derived
    /// weak-checksum index from the block list.
    pub fn from_bytes(bytes: &[u8]) -> (r: Result<Signature, RsyncResult>)
        ensures
            match r {
                Ok(sig) => sig.wf() && parse_sig(bytes@) == Ok::<_, RsyncResult>(
                    (sig.block_len as int, sig.strong_len as int, sig.blocks_model()),
                ),
                Err(e) => parse_sig(bytes@) == Err::<(int, int, Seq<(u32, Seq<u8>)>), _>(e),
            },
    {
        let n = bytes.len();
        if n < 16 {
            return Err(RsyncResult::Corrupt);
        }
        let magic = read_le32_at(bytes, 0);
        if magic != MagicNumber::MD5.value() {
            return Err(RsyncResult::BadMagicError);
        }
        let bl32 = read_le32_at(bytes, 4);
        let sl32 = read_le32_at(bytes, 8);
        let cnt32 = read_le32_at(bytes, 12);
        if bl32 == 0 || sl32 == 0 || sl32 > 16 {
            return Err(RsyncResult::Corrupt);
        }
        let es64: u64 = 4 + sl32 as u64;
        proof {
            assert((cnt32 as int) * (es64 as int) <= 0xffffffff * 20) by (nonlinear_arith)
                requires
                    0 <= cnt32 as int <= 0xffffffff,
                    0 <= es64 as int <= 20,
            ;
        }
        let expected: u64 = 16 + (cnt32 as u64) * es64;
        if (n as u64) != expected {
            proof {
                assert(bytes@.len() != 16 + (cnt32 as int) * (4 + sl32 as int));
            }
            return Err(RsyncResult::Corrupt);
        }
        let ghost sli = sl32 as int;
        let ghost cnti = cnt32 as int;
        proof {
            assert(bytes@.len() == 16 + cnti * (4 + sli));
        }
        let cnt: usize = cnt32 as usize;
        let es: usize = 4 + sl32 as usize;
        let mut blocks: Vec<BlockSig> = Vec::new();
        let mut k: usize = 0;
        while k < cnt
            invariant
                n == bytes@.len(),
                cnt == cnti,
                es == 4 + sli,
                0 < sli <= 16,
                n as int == 16 + cnti * (4 + sli),
                k <= cnt,
                blocks@.len() == k,
                forall|i: int|
                    0 <= i < k ==> ((#[trigger] blocks@[i]).weak as int, blocks@[i].strong@) == (
                        read_le32(bytes@, 16 + i * (4 + sli)),
                        bytes@.subrange(16 + i * (4 + sli) + 4, 16 + (i + 1) * (4 + sli)),
                    ),
                forall|i: int| 0 <= i < k ==> (#[trigger] blocks@[i]).strong@.len() == sli,
            decreases cnt - k,
        {
            proof {
                assert((k as int) * (4 + sli) + (4 + sli) == (k as int + 1) * (4 + sli))
                    by (nonlinear_arith);
                assert((k as int + 1) * (4 + sli) <= cnti * (4 + sli)) by (nonlinear_arith)
                    requires
                        k as int + 1 <= cnti,
                        sli >= 0,
                ;
                assert(0 <= (k as int) * (4 + sli)) by (nonlinear_arith)
                    requires
                        k as int >= 0,
                        sli >= 0,
                ;
            }
            let off: usize = 16 + k * es;
            let weak = read_le32_at(bytes, off);
            let strong = slice_to_vec(slice_subrange(bytes, off + 4, off + es));
            blocks.push(BlockSig { weak, strong });
            k = k + 1;
        }
        let index = build_index(&blocks);
        let sig = Signature {
            block_len: bl32 as usize,
            strong_len: sl32 as usize,
            blocks,
            index,
        };
        proof {
            assert(sig.blocks_model() =~= Seq::new(
                cnti as nat,
                |i: int|
                    (
                        read_le32(bytes@, 16 + i * (4 + sli)) as u32,
                        bytes@.subrange(16 + i * (4 + sli) + 4, 16 + (i + 1) * (4 + sli)),
                    ),
            ));
            if sig.blocks@.len() >= 1 {
                assert((sig.blocks@.len() - 1) * (sig.block_len as int) <= u64::MAX as int)
                    by (nonlinear_arith)
                    requires
                        0 <= sig.blocks@.len() - 1 <= 0xffffffff,
                        0 <= sig.block_len as int <= 0xffffffff,
                ;
            }
        }
        Ok(sig)
    }
}

/// The serialized entries of a block list: for each block in order, its weak
/// checksum as four little-endian bytes, then its truncated strong checksum.
pub open spec fn entries_bytes(blocks: Seq<(u32, Seq<u8>)>) -> Seq<u8>
    decreases blocks.len(),
{
    if blocks.len() == 0 {
        Seq::<u8>::empty()
    } else {
        entries_bytes(blocks.drop_last()) + le32(blocks.last().0 as int) + blocks.last().1
    }
}

/// The serialized signature: a 16-byte header of four little-endian 32-bit
/// fields — magic tag, block length, strong length, block count — followed
/// by the block entries. Weak sums are stored explicitly rather than
/// recomputed, so a signature can be reloaded without the basis.
pub open spec fn sig_bytes_spec(block_len: int, strong_len: int, blocks: Seq<(u32, Seq<u8>)>) -> Seq<
    u8,
> {
    le32(MagicNumber::MD5.value_spec() as int) + le32(block_len) + le32(strong_len) + le32(
        blocks.len() as int,
    ) + entries_bytes(blocks)
}

/// What a byte buffer deserializes to: the block length, strong length and
/// block list of the signature it encodes, or the error that rejects it —
/// `BadMagicError` for a wrong header tag, `Corrupt` for a truncated buffer
/// or impossible header fields.
pub open spec fn parse_sig(bytes: Seq<u8>) -> Result<(int, int, Seq<(u32, Seq<u8>)>), RsyncResult> {
    if bytes.len() < 16 {
        Err(RsyncResult::Corrupt)
    } else if read_le32(bytes, 0) != MagicNumber::MD5.value_spec() as int {
        Err(RsyncResult::BadMagicError)
    } else {
        let bl = read_le32(bytes, 4);
        let sl = read_le32(bytes, 8);
        let cnt = read_le32(bytes, 12);
        if bl == 0 || sl == 0 || sl > 16 {
            Err(RsyncResult::Corrupt)
        } else if bytes.len() != 16 + cnt * (4 + sl) {
            Err(RsyncResult::Corrupt)
        } else {
            Ok(
                (
                    bl,
                    sl,
                    Seq::new(
                        cnt as nat,
                        |i: int|
                            (
                                read_le32(bytes, 16 + i * (4 + sl)) as u32,
                                bytes.subrange(
                                    16 + i * (4 + sl) + 4,
                                    16 + (i + 1) * (4 + sl),
                                ),
                            ),
                    ),
                ),
            )
        }
    }
}

proof fn lemma_entries_bytes(blocks: Seq<(u32, Seq<u8>)>, sl: int)
    requires
        sl >= 0,
        forall|i: int| 0 <= i < blocks.len() ==> (#[trigger] blocks[i]).1.len() == sl,
    ensures
        entries_bytes(blocks).len() == blocks.len() * (4 + sl),
        forall|i: int|
            0 <= i < blocks.len() ==> #[trigger] entries_bytes(blocks).subrange(
                i * (4 + sl),
                (i + 1) * (4 + sl),
            ) == le32(blocks[i].0 as int) + blocks[i].1,
    decreases blocks.len(),
{
    let es = 4 + sl;
    let e = entries_bytes(blocks);
    if blocks.len() == 0 {
        assert(blocks.len() * es == 0) by (nonlinear_arith)
            requires
                blocks.len() == 0,
        ;
    } else {
        let t = blocks.drop_last();
        lemma_entries_bytes(t, sl);
        let et = entries_bytes(t);
        assert((t.len() + 1) * es == t.len() * es + es) by (nonlinear_arith);
        assert(e.len() == blocks.len() * es);
        assert forall|i: int|
            0 <= i < blocks.len() implies #[trigger] e.subrange(i * es, (i + 1) * es) == le32(
            blocks[i].0 as int,
        ) + blocks[i].1 by {
            assert(0 <= i * es && (i + 1) * es == i * es + es) by (nonlinear_arith)
                requires
                    0 <= i,
                    es >= 4,
            ;
            if i < blocks.len() - 1 {
                assert((i + 1) * es <= t.len() * es) by (nonlinear_arith)
                    requires
                        i + 1 <= t.len(),
                        es >= 4,
                ;
                assert(t[i] == blocks[i]);
                assert(e.subrange(i * es, (i + 1) * es) =~= et.subrange(i * es, (i + 1) * es));
            } else {
                assert(i * es == et.len());
                assert(e.subrange(i * es, (i + 1) * es) =~= le32(blocks[i].0 as int)
                    + blocks[i].1);
            }
        }
    }
}

/// Serializing a signature and deserializing the bytes yields the same block
/// length, strong length, and block list: the two serialized forms are
/// mutually consistent.
pub proof fn lemma_sig_serde_round_trip(block_len: int, strong_len: int, blocks: Seq<(u32, Seq<u8>)>)
    requires
        0 < block_len <= u32::MAX,
        0 < strong_len <= 16,
        blocks.len() <= u32::MAX,
        forall|i: int| 0 <= i < blocks.len() ==> (#[trigger] blocks[i]).1.len() == strong_len,
    ensures
        parse_sig(sig_bytes_spec(block_len, strong_len, blocks)) == Ok::<_, RsyncResult>(
            (block_len, strong_len, blocks),
        ),
{
    let sl = strong_len;
    let es = 4 + sl;
    let cnt = blocks.len() as int;
    let bytes = sig_bytes_spec(block_len, sl, blocks);
    let e = entries_bytes(blocks);
    lemma_entries_bytes(blocks, sl);
    assert(bytes.len() == 16 + cnt * es);
    assert(cnt * es >= 0) by (nonlinear_arith)
        requires
            cnt >= 0,
            es >= 4,
    ;
    assert(bytes.subrange(0, 4) =~= le32(MagicNumber::MD5.value_spec() as int));
    assert(bytes.subrange(4, 8) =~= le32(block_len));
    assert(bytes.subrange(8, 12) =~= le32(sl));
    assert(bytes.subrange(12, 16) =~= le32(cnt));
    lemma_le32_read(bytes, 0, MagicNumber::MD5.value_spec() as int);
    lemma_le32_read(bytes, 4, block_len);
    lemma_le32_read(bytes, 8, sl);
    lemma_le32_read(bytes, 12, cnt);
    let parsed = Seq::new(
        cnt as nat,
        |i: int|
            (
                read_le32(bytes, 16 + i * es) as u32,
                bytes.subrange(16 + i * es + 4, 16 + (i + 1) * es),
            ),
    );
    assert forall|i: int| 0 <= i < cnt implies #[trigger] parsed[i] == blocks[i] by {
        assert(0 <= i * es && (i + 1) * es == i * es + es && (i + 1) * es <= cnt * es)
            by (nonlinear_arith)
            requires
                0 <= i,
                i + 1 <= cnt,
                es >= 4,
        ;
        let entry = e.subrange(i * es, (i + 1) * es);
        assert(entry == le32(blocks[i].0 as int) + blocks[i].1);
        assert(bytes.subrange(16 + i * es, 16 + (i + 1) * es) =~= entry);
        assert(bytes.subrange(16 + i * es, 16 + i * es + 4) =~= entry.subrange(0, 4));
        assert(entry.subrange(0, 4) =~= le32(blocks[i].0 as int));
        lemma_le32_read(bytes, 16 + i * es, blocks[i].0 as int);
        assert(bytes.subrange(16 + i * es + 4, 16 + (i + 1) * es) =~= entry.subrange(4, es));
        assert(entry.subrange(4, es) =~= blocks[i].1);
    }
    assert(parsed =~= blocks);
}

/// Builds the derived lookup index from the block list alone: for each weak
/// checksum, the ascending chain of the block indices that carry it.
fn build_index(blocks: &Vec<BlockSig>) -> (r: HashMap<u32, Vec<usize>>)
    ensures
        index_sound(r@, blocks@.map_values(|b: BlockSig| (b.weak, b.strong@))),
        index_complete(r@, blocks@.map_values(|b: BlockSig| (b.weak, b.strong@))),
        index_tight(r@),
{
        let mut index: HashMap<u32, Vec<usize>> = HashMap::new();
        let ghost model = blocks@.map_values(|b: BlockSig| (b.weak, b.strong@));
        let mut i: usize = 0;
        while i < blocks.len()
            invariant
                model == blocks@.map_values(|b: BlockSig| (b.weak, b.strong@)),
                i <= blocks@.len(),
                index_sound(index@, model),
                index_tight(index@),
                forall|w: u32|
                    index@.contains_key(w) ==> forall|j: int|
                        0 <= j < index@[w]@.len() ==> (#[trigger] index@[w]@[j]) < i,
                forall|q: int|
                    0 <= q < i ==> index@.contains_key((#[trigger] model[q]).0)
                        && index@[model[q].0]@.contains(q as usize),
            decreases blocks@.len() - i,
        {
            let w = blocks[i].weak;
            proof {
                assert(model[i as int].0 == w);
            }
            let ghost pre_index = index@;
            let ghost mut oldc: Seq<usize> = Seq::empty();
            match index.remove(&w) {
                Some(mut chain) => {
                    proof {
                        oldc = chain@;
                    }
                    chain.push(i);
                    index.insert(w, chain);
                    proof {
                        assert(pre_index.contains_key(w));
                        assert(oldc == pre_index[w]@);
                        assert(index@[w]@ == oldc.push(i));
                        assert(chain_ok(oldc, model, w));
                        assert(forall|q: int|
                            0 <= q < i && (#[trigger] model[q]).0 == w ==> oldc.contains(
                                q as usize,
                            ));
                        assert(forall|w2: u32|
                            w2 != w ==> (index@.contains_key(w2) == pre_index.contains_key(w2))
                                && (pre_index.contains_key(w2) ==> index@[w2]
                                == pre_index[w2]));
                    }
                },
                None => {
                    let mut chain: Vec<usize> = Vec::new();
                    chain.push(i);
                    index.insert(w, chain);
                    proof {
                        assert(!pre_index.contains_key(w));
                        assert(index@[w]@ =~= oldc.push(i));
                        assert(chain_ok(oldc, model, w));
                        assert(forall|q: int|
                            0 <= q < i && (#[trigger] model[q]).0 == w ==> oldc.contains(
                                q as usize,
                            ));
                        assert(forall|w2: u32|
                            w2 != w ==> (index@.contains_key(w2) == pre_index.contains_key(w2))
                                && (pre_index.contains_key(w2) ==> index@[w2]
                                == pre_index[w2]));
                    }
                },
            }
            proof {
                let newc = index@[w]@;
                assert(newc == oldc.push(i));
                assert(forall|j: int| 0 <= j < oldc.len() ==> (#[trigger] oldc[j]) < i);
                // soundness of the updated chain
                assert forall|j: int|
                    0 <= j < newc.len() implies (#[trigger] newc[j]) < model.len()
                    && model[newc[j] as int].0 == w by {
                    if j < newc.len() - 1 {
                        assert(oldc[j] == newc[j]);
                    } else {
                        assert(newc[j] == i as usize);
                    }
                }
                assert forall|j1: int, j2: int|
                    0 <= j1 < j2 < newc.len() implies newc[j1] < newc[j2] by {
                    if j2 < newc.len() - 1 {
                        assert(oldc[j1] == newc[j1] && oldc[j2] == newc[j2]);
                    } else {
                        assert(newc[j1] == oldc[j1]);
                        assert(newc[j1] < i as usize);
                    }
                }
                assert(chain_ok(newc, model, w));
                // completeness up to and including the new block
                assert forall|q: int| 0 <= q < i + 1 implies index@.contains_key(
                    (#[trigger] model[q]).0,
                ) && index@[model[q].0]@.contains(q as usize) by {
                    if model[q].0 == w {
                        if q < i {
                            let j = choose|j: int|
                                0 <= j < oldc.len() && oldc[j] == q as usize;
                            assert(newc[j] == q as usize);
                        } else {
                            assert(newc[newc.len() - 1] == i as usize);
                        }
                    } else {
                        assert(q < i);
                        assert(pre_index.contains_key(model[q].0));
                        assert(index@[model[q].0] == pre_index[model[q].0]);
                        assert(pre_index[model[q].0]@.contains(q as usize));
                    }
                }
            }
            i = i + 1;
        }
        index
}

/// Facts about the ceiling-division block count.
pub proof fn lemma_num_blocks(len: int, bl: int)
    requires
        bl >= 1,
        len >= 0,
    ensures
        num_blocks(len, bl) >= 0,
        len == 0 ==> num_blocks(len, bl) == 0,
        num_blocks(len, bl) * bl >= len,
        len > 0 ==> num_blocks(len, bl) >= 1 && (num_blocks(len, bl) - 1) * bl < len,
        num_blocks(len, bl) == len / bl + (if len % bl != 0 {
            1int
        } else {
            0int
        }),
        len % bl != 0 ==> len / bl < len,
{
    lemma_fundamental_div_mod(len, bl);
    lemma_mod_pos_bound(len, bl);
    let q = len / bl;
    let r = len % bl;
    assert(q >= 0) by (nonlinear_arith)
        requires
            len >= 0,
            bl >= 1,
            len == bl * q + r,
            0 <= r < bl,
    ;
    let qq = if r != 0 {
        q + 1
    } else {
        q
    };
    let rr = if r != 0 {
        r - 1
    } else {
        bl - 1
    };
    assert(len + bl - 1 == qq * bl + rr) by (nonlinear_arith)
        requires
            len == bl * q + r,
            0 <= r < bl,
            qq == (if r != 0 {
                q + 1
            } else {
                q
            }),
            rr == (if r != 0 {
                r - 1
            } else {
                bl - 1
            }),
    ;
    lemma_fundamental_div_mod_converse_div(len + bl - 1, bl, qq, rr);
    assert(num_blocks(len, bl) == qq);
    assert(r != 0 ==> q < len) by (nonlinear_arith)
        requires
            len == bl * q + r,
            0 <= r < bl,
            q >= 0,
            bl >= 1,
    ;
    assert(qq * bl >= len) by (nonlinear_arith)
        requires
            len == bl * q + r,
            0 <= r < bl,
            qq == (if r != 0 {
                q + 1
            } else {
                q
            }),
    ;
    if len > 0 {
        assert(qq >= 1) by (nonlinear_arith)
            requires
                len > 0,
                bl >= 1,
                len == bl * q + r,
                0 <= r < bl,
                q >= 0,
                qq == (if r != 0 {
                    q + 1
                } else {
                    q
                }),
        ;
        assert((qq - 1) * bl < len) by (nonlinear_arith)
            requires
                len > 0,
                bl >= 1,
                len == bl * q + r,
                0 <= r < bl,
                qq == (if r != 0 {
                    q + 1
                } else {
                    q
                }),
        ;
    }
}

} // verus!
