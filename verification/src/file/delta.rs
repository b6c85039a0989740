//! Delta encoding: slides a window over the target, matches windows against
//! indexed basis blocks by weak then strong checksum, and emits an ordered
//! sequence of Copy/Literal operations.

use vstd::prelude::*;
use vstd::slice::{slice_subrange, slice_to_vec};
use crate::checksum::{strong_sum, strong_trunc, weak_a, weak_b, weak_combine, weak_pair, weak_roll, weak_shrink, weak_sum, bytes_eq};
use crate::file::signature::{chain_ok, Signature};
use crate::wire::{append_bytes, le32, push_le32, read_le32, read_le32_at};
use crate::{MagicNumber, RsyncResult, RsyncStats};

verus! {

broadcast use vstd::std_specs::hash::group_hash_axioms;

/// One delta operation, as executable data.
pub enum DeltaOp {
    Copy { source_offset: u64, length: u64 },
    Literal { bytes: Vec<u8> },
}

/// One delta operation, as mathematical data.
pub enum SpecOp {
    Copy { source_offset: int, length: int },
    Literal { bytes: Seq<u8> },
}

/// The mathematical content of one operation.
pub open spec fn op_model(op: DeltaOp) -> SpecOp {
    match op {
        DeltaOp::Copy { source_offset, length } => SpecOp::Copy {
            source_offset: source_offset as int,
            length: length as int,
        },
        DeltaOp::Literal { bytes } => SpecOp::Literal { bytes: bytes@ },
    }
}

/// The mathematical content of an operation list.
pub open spec fn ops_model_of(ops: Seq<DeltaOp>) -> Seq<SpecOp> {
    ops.map_values(|op: DeltaOp| op_model(op))
}

/// An immutable delta: the ordered operation list.
pub struct Delta {
    pub ops: Vec<DeltaOp>,
}

/// The window of the target that starts at `pos`: `bl` bytes, or all that
/// remain when fewer than `bl` are left.
pub open spec fn window_of(target: Seq<u8>, pos: int, bl: int) -> Seq<u8> {
    target.subrange(
        pos,
        if pos + bl <= target.len() {
            pos + bl
        } else {
            target.len() as int
        },
    )
}

/// Whether signature entry `b` matches window bytes `w`: the weak checksums
/// agree and the truncated strong checksums agree.
pub open spec fn block_matches(b: (u32, Seq<u8>), sl: int, w: Seq<u8>) -> bool {
    b.0 == weak_sum(w) && b.1 == strong_trunc(w, sl)
}

/// The least block index at or after `i` that matches `w`, if any.
pub open spec fn find_from(blocks: Seq<(u32, Seq<u8>)>, sl: int, w: Seq<u8>, i: int) -> Option<int>
    decreases blocks.len() - i,
{
    if i >= blocks.len() {
        None
    } else if block_matches(blocks[i], sl, w) {
        Some(i)
    } else {
        find_from(blocks, sl, w, i + 1)
    }
}

/// The least matching block index for a window: the deterministic tie-break.
pub open spec fn find_match_spec(blocks: Seq<(u32, Seq<u8>)>, sl: int, w: Seq<u8>) -> Option<int> {
    find_from(blocks, sl, w, 0)
}

pub proof fn lemma_find_from_char(blocks: Seq<(u32, Seq<u8>)>, sl: int, w: Seq<u8>, i: int)
    requires
        0 <= i <= blocks.len(),
    ensures
        match find_from(blocks, sl, w, i) {
            Some(r) => i <= r < blocks.len() && block_matches(blocks[r], sl, w) && forall|j: int|
                i <= j < r ==> !block_matches(#[trigger] blocks[j], sl, w),
            None => forall|j: int| i <= j < blocks.len() ==> !block_matches(
                #[trigger] blocks[j],
                sl,
                w,
            ),
        },
    decreases blocks.len() - i,
{
    if i < blocks.len() && !block_matches(blocks[i], sl, w) {
        lemma_find_from_char(blocks, sl, w, i + 1);
    }
}

/// Appends the pending literal bytes, if any, as one coalesced Literal op.
pub open spec fn flush_pending(acc: Seq<SpecOp>, pending: Seq<u8>) -> Seq<SpecOp> {
    if pending.len() == 0 {
        acc
    } else {
        acc.push(SpecOp::Literal { bytes: pending })
    }
}

/// The encoder's stepping rule from position `pos`, with the pending literal
/// buffer and the operations emitted so far. A confirmed match emits a Copy
/// and jumps by the window length; a miss moves one byte to the pending
/// buffer and advances by one. The end of the target flushes the buffer.
pub open spec fn encode_from(
    blocks: Seq<(u32, Seq<u8>)>,
    sl: int,
    bl: int,
    target: Seq<u8>,
    pos: int,
    pending: Seq<u8>,
    acc: Seq<SpecOp>,
) -> Seq<SpecOp>
    decreases target.len() - pos,
    when bl >= 1
{
    if pos < 0 || pos >= target.len() {
        flush_pending(acc, pending)
    } else {
        let w = window_of(target, pos, bl);
        match find_match_spec(blocks, sl, w) {
            Some(i) => encode_from(
                blocks,
                sl,
                bl,
                target,
                pos + w.len(),
                Seq::empty(),
                flush_pending(acc, pending).push(
                    SpecOp::Copy { source_offset: i * bl, length: w.len() as int },
                ),
            ),
            None => encode_from(blocks, sl, bl, target, pos + 1, pending.push(target[pos]), acc),
        }
    }
}

/// The delta a signature and a target byte sequence encode to.
pub open spec fn encode_spec(
    blocks: Seq<(u32, Seq<u8>)>,
    sl: int,
    bl: int,
    target: Seq<u8>,
) -> Seq<SpecOp> {
    encode_from(blocks, sl, bl, target, 0, Seq::empty(), Seq::empty())
}

/// Total bytes the Copy operations of `ops` cover.
pub open spec fn copy_total(ops: Seq<SpecOp>) -> int
    decreases ops.len(),
{
    if ops.len() == 0 {
        0
    } else {
        copy_total(ops.drop_last()) + match ops.last() {
            SpecOp::Copy { length, .. } => length,
            SpecOp::Literal { .. } => 0,
        }
    }
}

/// Total bytes the Literal operations of `ops` carry.
pub open spec fn lit_total(ops: Seq<SpecOp>) -> int
    decreases ops.len(),
{
    if ops.len() == 0 {
        0
    } else {
        lit_total(ops.drop_last()) + match ops.last() {
            SpecOp::Copy { .. } => 0,
            SpecOp::Literal { bytes } => bytes.len() as int,
        }
    }
}

/// Number of Copy operations in `ops`.
pub open spec fn count_copy(ops: Seq<SpecOp>) -> int
    decreases ops.len(),
{
    if ops.len() == 0 {
        0
    } else {
        count_copy(ops.drop_last()) + match ops.last() {
            SpecOp::Copy { .. } => 1int,
            SpecOp::Literal { .. } => 0int,
        }
    }
}

/// Number of Literal operations in `ops`.
pub open spec fn count_lit(ops: Seq<SpecOp>) -> int
    decreases ops.len(),
{
    if ops.len() == 0 {
        0
    } else {
        count_lit(ops.drop_last()) + match ops.last() {
            SpecOp::Copy { .. } => 0int,
            SpecOp::Literal { .. } => 1int,
        }
    }
}

/// Looks `weak` up in the signature's index and scans the collision chain in
/// ascending block order for the first entry whose strong checksum confirms;
/// returns the least matching block index overall.
fn find_block_match(sig: &Signature, window: &[u8], weak: u32) -> (r: Option<usize>)
    requires
        sig.wf(),
        weak == weak_sum(window@),
    ensures
        match r {
            Some(i) => i < sig.blocks@.len() && find_match_spec(
                sig.blocks_model(),
                sig.strong_len as int,
                window@,
            ) == Some(i as int),
            None => find_match_spec(sig.blocks_model(), sig.strong_len as int, window@) is None,
        },
{
    let ghost model = sig.blocks_model();
    let ghost sl = sig.strong_len as int;
    let nblocks = sig.blocks.len();
    proof {
        assert(model.len() == nblocks as int);
        lemma_find_from_char(model, sl, window@, 0);
    }
    let chain = match sig.index.get(&weak) {
        Some(c) => c,
        None => {
            proof {
                assert forall|j: int| 0 <= j < model.len() implies !block_matches(
                    #[trigger] model[j],
                    sl,
                    window@,
                ) by {
                    assert(model[j].0 != weak);
                }
            }
            return None;
        },
    };
    proof {
        assert(sig.index@.contains_key(weak) && sig.index@[weak] == *chain);
        assert(chain_ok(chain@, model, weak));
    }
    let strong = strong_sum(window, sig.strong_len);
    let mut j: usize = 0;
    while j < chain.len()
        invariant
            sig.wf(),
            weak == weak_sum(window@),
            model == sig.blocks_model(),
            sl == sig.strong_len as int,
            sig.index@.contains_key(weak) && sig.index@[weak] == *chain,
            chain_ok(chain@, model, weak),
            strong@ == strong_trunc(window@, sl),
            j <= chain@.len(),
            forall|jj: int|
                0 <= jj < j ==> !block_matches(#[trigger] model[chain@[jj] as int], sl, window@),
        decreases chain@.len() - j,
    {
        let bi = chain[j];
        proof {
            assert(chain@[j as int] == bi);
            assert(bi < model.len() && model[bi as int].0 == weak);
        }
        if bytes_eq(strong.as_slice(), sig.blocks[bi].strong.as_slice()) {
            proof {
                assert(model[bi as int].1 == sig.blocks@[bi as int].strong@);
                assert(block_matches(model[bi as int], sl, window@));
                assert forall|q: int|
                    0 <= q < bi implies !block_matches(#[trigger] model[q], sl, window@) by {
                    if model[q].0 == weak {
                        assert(sig.index@[weak]@.contains(q as usize));
                        let jj = choose|jj: int|
                            0 <= jj < chain@.len() && chain@[jj] == q as usize;
                        if jj > j as int {
                            assert(chain@[j as int] < chain@[jj]);
                            assert(false);
                        } else if jj == j as int {
                            assert(false);
                        }
                    }
                }
                lemma_find_from_char(model, sl, window@, 0);
                match find_from(model, sl, window@, 0) {
                    Some(r) => {
                        assert(!(r < bi));
                        assert(!(bi < r));
                    },
                    None => {
                        assert(false);
                    },
                }
            }
            return Some(bi);
        }
        j = j + 1;
    }
    proof {
        assert forall|q: int| 0 <= q < model.len() implies !block_matches(
            #[trigger] model[q],
            sl,
            window@,
        ) by {
            if model[q].0 == weak {
                assert(sig.index@[weak]@.contains(q as usize));
                let jj = choose|jj: int| 0 <= jj < chain@.len() && chain@[jj] == q as usize;
                assert(!block_matches(model[chain@[jj] as int], sl, window@));
            }
        }
    }
    None
}

impl Delta {
    /// The mathematical content of the delta.
    pub open spec fn ops_model(&self) -> Seq<SpecOp> {
        ops_model_of(self.ops@)
    }

    /// Encodes `target` against a signature. Maintains a rolling weak
    /// checksum over a sliding window; on a confirmed (weak then strong)
    /// match emits a Copy of the matched block's offset and jumps by the
    /// window length, otherwise moves one byte into a pending literal buffer
    /// that is flushed as one coalesced Literal op. The result is exactly
    /// `encode_spec` of the inputs, so equal inputs yield equal deltas.
    pub fn delta(signature: &Signature, target: &[u8]) -> (r: (Delta, RsyncStats))
        requires
            signature.wf(),
        ensures
            r.0.ops_model() == encode_spec(
                signature.blocks_model(),
                signature.strong_len as int,
                signature.block_len as int,
                target@,
            ),
            r.1.copy_bytes as int == copy_total(r.0.ops_model()),
            r.1.lit_bytes as int == lit_total(r.0.ops_model()),
            r.1.copy_cmds as int == count_copy(r.0.ops_model()),
            r.1.lit_cmds as int == count_lit(r.0.ops_model()),
            r.1.copy_bytes + r.1.lit_bytes == target@.len(),
            r.1.in_bytes == target@.len(),
            r.1.out_bytes == r.1.copy_bytes + r.1.lit_bytes,
            r.1.block_len == signature.block_len,
            r.1.sig_blocks == signature.blocks_model().len(),
    {
        let ghost model = signature.blocks_model();
        let ghost sl = signature.strong_len as int;
        let ghost blg = signature.block_len as int;
        let bl = signature.block_len;
        let n = target.len();
        let mut ops: Vec<DeltaOp> = Vec::new();
        let mut pending: Vec<u8> = Vec::new();
        let mut pos: usize = 0;
        let mut wa: u32 = 0;
        let mut wb: u32 = 0;
        let mut copy_cmds: u64 = 0;
        let mut copy_bytes: u64 = 0;
        let mut lit_cmds: u64 = 0;
        let mut lit_bytes: u64 = 0;
        if 0 < n {
            let wend0 = if n < bl {
                n
            } else {
                bl
            };
            let first = slice_subrange(target, 0, wend0);
            let (a0, b0) = weak_pair(first);
            wa = a0;
            wb = b0;
            proof {
                assert(first@ =~= window_of(target@, 0, blg));
            }
        }
        proof {
            assert(ops_model_of(ops@) =~= Seq::<SpecOp>::empty());
            assert(pending@ =~= Seq::<u8>::empty());
            assert(pending@ =~= target@.subrange(0, 0));
        }
        while pos < n
            invariant
                signature.wf(),
                model == signature.blocks_model(),
                sl == signature.strong_len as int,
                blg == signature.block_len as int,
                bl == signature.block_len,
                n as int == target@.len(),
                pos <= n,
                pending@.len() <= pos,
                pending@ == target@.subrange(pos - pending@.len(), pos as int),
                pos < n ==> wa as int == weak_a(window_of(target@, pos as int, blg)) && wb as int
                    == weak_b(window_of(target@, pos as int, blg)),
                encode_from(model, sl, blg, target@, pos as int, pending@, ops_model_of(ops@))
                    == encode_spec(model, sl, blg, target@),
                copy_bytes as int == copy_total(ops_model_of(ops@)),
                lit_bytes as int == lit_total(ops_model_of(ops@)),
                copy_cmds as int == count_copy(ops_model_of(ops@)),
                lit_cmds as int == count_lit(ops_model_of(ops@)),
                copy_total(ops_model_of(ops@)) + lit_total(ops_model_of(ops@)) + pending@.len()
                    == pos,
                count_copy(ops_model_of(ops@)) + count_lit(ops_model_of(ops@)) == ops@.len(),
                ops@.len() + (if pending@.len() > 0 {
                    1int
                } else {
                    0int
                }) <= pos,
            decreases n - pos,
        {
            let wend = if n - pos < bl {
                n
            } else {
                pos + bl
            };
            let ghost w = window_of(target@, pos as int, blg);
            let weak = weak_combine(wa, wb, Ghost(w));
            let window = slice_subrange(target, pos, wend);
            proof {
                assert(window@ =~= w);
            }
            let ghost pre_ops = ops_model_of(ops@);
            let ghost pre_pending = pending@;
            match find_block_match(signature, window, weak) {
                Some(bi) => {
                    if pending.len() > 0 {
                        proof {
                            assert(ops_model_of(ops@.push(DeltaOp::Literal { bytes: pending }))
                                =~= pre_ops.push(SpecOp::Literal { bytes: pre_pending }));
                            assert(pre_ops.push(
                                SpecOp::Literal { bytes: pre_pending },
                            ).drop_last() =~= pre_ops);
                        }
                        lit_cmds = lit_cmds + 1;
                        lit_bytes = lit_bytes + pending.len() as u64;
                        ops.push(DeltaOp::Literal { bytes: pending });
                        pending = Vec::new();
                    }
                    let ghost flushed = flush_pending(pre_ops, pre_pending);
                    proof {
                        assert(ops_model_of(ops@) == flushed);
                        assert((blg >= 0) && (bi as int <= model.len() - 1));
                        assert((bi as int) * blg <= (model.len() - 1) * blg) by (nonlinear_arith)
                            requires
                                0 <= bi as int <= model.len() - 1,
                                blg >= 0,
                        ;
                        assert(0 <= (bi as int) * blg) by (nonlinear_arith)
                            requires
                                0 <= bi as int,
                                blg >= 0,
                        ;
                    }
                    let off64: u64 = (bi as u64) * (bl as u64);
                    let len64: u64 = (wend - pos) as u64;
                    let cop = DeltaOp::Copy { source_offset: off64, length: len64 };
                    proof {
                        assert(ops_model_of(ops@.push(cop)) =~= flushed.push(op_model(cop)));
                        assert(flushed.push(op_model(cop)).drop_last() =~= flushed);
                        assert(op_model(cop) == (SpecOp::Copy {
                            source_offset: (bi as int) * blg,
                            length: w.len() as int,
                        }));
                    }
                    copy_cmds = copy_cmds + 1;
                    copy_bytes = copy_bytes + len64;
                    ops.push(cop);
                    pos = wend;
                    if pos < n {
                        let wend2 = if n - pos < bl {
                            n
                        } else {
                            pos + bl
                        };
                        let fresh = slice_subrange(target, pos, wend2);
                        let (a2, b2) = weak_pair(fresh);
                        wa = a2;
                        wb = b2;
                        proof {
                            assert(fresh@ =~= window_of(target@, pos as int, blg));
                        }
                    }
                    proof {
                        assert(pending@ =~= target@.subrange(pos as int, pos as int));
                        assert(pending@ =~= Seq::<u8>::empty());
                        assert(ops_model_of(ops@) == flushed.push(op_model(cop)));
                        assert(copy_total(flushed) == copy_total(pre_ops));
                        assert(lit_total(flushed) == lit_total(pre_ops) + pre_pending.len());
                        assert(count_copy(flushed) == count_copy(pre_ops));
                        assert(count_lit(flushed) == count_lit(pre_ops) + (if pre_pending.len()
                            > 0 {
                            1int
                        } else {
                            0int
                        }));
                    }
                },
                None => {
                    let x = target[pos];
                    pending.push(x);
                    if wend < n {
                        let y = target[wend];
                        let (a2, b2) = weak_roll(wa, wb, wend - pos, x, y, Ghost(w));
                        wa = a2;
                        wb = b2;
                        proof {
                            assert(w.subrange(1, w.len() as int).push(y) =~= window_of(
                                target@,
                                pos + 1,
                                blg,
                            ));
                        }
                    } else {
                        if pos + 1 < n {
                            let (a2, b2) = weak_shrink(wa, wb, wend - pos, x, Ghost(w));
                            wa = a2;
                            wb = b2;
                            proof {
                                assert(w.subrange(1, w.len() as int) =~= window_of(
                                    target@,
                                    pos + 1,
                                    blg,
                                ));
                            }
                        }
                    }
                    proof {
                        assert(pending@ =~= target@.subrange(
                            pos + 1 - pending@.len(),
                            pos + 1,
                        ));
                    }
                    pos = pos + 1;
                },
            }
        }
        let ghost pre_ops = ops_model_of(ops@);
        let ghost pre_pending = pending@;
        if pending.len() > 0 {
            proof {
                assert(ops_model_of(ops@.push(DeltaOp::Literal { bytes: pending })) =~= pre_ops
                    .push(SpecOp::Literal { bytes: pre_pending }));
                assert(pre_ops.push(SpecOp::Literal { bytes: pre_pending }).drop_last()
                    =~= pre_ops);
            }
            lit_cmds = lit_cmds + 1;
            lit_bytes = lit_bytes + pending.len() as u64;
            ops.push(DeltaOp::Literal { bytes: pending });
        }
        proof {
            assert(ops_model_of(ops@) == flush_pending(pre_ops, pre_pending));
            assert(encode_from(model, sl, blg, target@, n as int, pre_pending, pre_ops)
                == flush_pending(pre_ops, pre_pending));
        }
        let mut stats = RsyncStats::new();
        stats.copy_cmds = copy_cmds;
        stats.copy_bytes = copy_bytes;
        stats.lit_cmds = lit_cmds;
        stats.lit_bytes = lit_bytes;
        stats.in_bytes = n as u64;
        stats.out_bytes = copy_bytes + lit_bytes;
        stats.block_len = bl as u64;
        stats.sig_blocks = signature.blocks.len() as u64;
        (Delta { ops }, stats)
    }
}

/// The base-128 little-endian group encoding of a non-negative value: seven
/// value bits per byte, high bit set on every byte but the last.
pub open spec fn varint_bytes(v: int) -> Seq<u8>
    decreases v,
    when v >= 0
{
    if v < 128 {
        seq![v as u8]
    } else {
        seq![(128 + v % 128) as u8] + varint_bytes(v / 128)
    }
}

/// The serialized form of one operation: a Copy is tag 1 with offset and
/// length as varints; a Literal is tag 0 with its length as a varint and the
/// raw payload.
pub open spec fn op_bytes(op: SpecOp) -> Seq<u8> {
    match op {
        SpecOp::Copy { source_offset, length } => seq![1u8] + varint_bytes(source_offset)
            + varint_bytes(length),
        SpecOp::Literal { bytes } => seq![0u8] + varint_bytes(bytes.len() as int) + bytes,
    }
}

/// The serialized records of an operation list, in order.
pub open spec fn ops_bytes(ops: Seq<SpecOp>) -> Seq<u8>
    decreases ops.len(),
{
    if ops.len() == 0 {
        Seq::<u8>::empty()
    } else {
        ops_bytes(ops.drop_last()) + op_bytes(ops.last())
    }
}

/// The serialized delta: the delta magic tag, then the records.
pub open spec fn delta_bytes_spec(ops: Seq<SpecOp>) -> Seq<u8> {
    le32(MagicNumber::Delta.value_spec() as int) + ops_bytes(ops)
}

/// Upper bound on a varint of at most `budget` groups.
pub open spec fn pow128(budget: nat) -> int
    decreases budget,
{
    if budget == 0 {
        1
    } else {
        128 * pow128((budget - 1) as nat)
    }
}

/// The value and end position of the varint at `off`, read over at most
/// `budget` groups; `None` when the buffer ends first or the groups run on
/// too long.
pub open spec fn parse_varint(bytes: Seq<u8>, off: int, budget: nat) -> Option<(int, int)>
    decreases budget,
{
    if budget == 0 {
        None
    } else if !(0 <= off < bytes.len()) {
        None
    } else if bytes[off] < 128 {
        Some((bytes[off] as int, off + 1))
    } else {
        match parse_varint(bytes, off + 1, (budget - 1) as nat) {
            Some((v, o)) => Some(((bytes[off] - 128) + 128 * v, o)),
            None => None,
        }
    }
}

/// The operations encoded from `off` to the end of the buffer, or `None` for
/// a truncated or malformed record sequence. Varints are capped at ten
/// groups and their values at the 64-bit range.
pub open spec fn parse_ops(bytes: Seq<u8>, off: int) -> Option<Seq<SpecOp>>
    decreases bytes.len() - off,
    when 0 <= off <= bytes.len()
{
    if off == bytes.len() {
        Some(Seq::<SpecOp>::empty())
    } else if bytes[off] == 1 {
        match parse_varint(bytes, off + 1, 10) {
            Some((o, p1)) => {
                if 0 <= p1 <= bytes.len() {
                    match parse_varint(bytes, p1, 10) {
                        Some((l, p2)) => {
                            if o <= u64::MAX && l <= u64::MAX && off < p2 <= bytes.len() {
                                match parse_ops(bytes, p2) {
                                    Some(rest) => Some(
                                        seq![SpecOp::Copy { source_offset: o, length: l }] + rest,
                                    ),
                                    None => None,
                                }
                            } else {
                                None
                            }
                        },
                        None => None,
                    }
                } else {
                    None
                }
            },
            None => None,
        }
    } else if bytes[off] == 0 {
        match parse_varint(bytes, off + 1, 10) {
            Some((l, p1)) => {
                if l <= u64::MAX && 0 <= p1 && off < p1 + l <= bytes.len() {
                    match parse_ops(bytes, p1 + l) {
                        Some(rest) => Some(
                            seq![SpecOp::Literal { bytes: bytes.subrange(p1, p1 + l) }] + rest,
                        ),
                        None => None,
                    }
                } else {
                    None
                }
            },
            None => None,
        }
    } else {
        None
    }
}

/// What a byte buffer deserializes to: the operation list of the delta it
/// encodes, or the error that rejects it — `BadMagicError` for a wrong
/// header tag, `Corrupt` for truncated or malformed records.
pub open spec fn parse_delta(bytes: Seq<u8>) -> Result<Seq<SpecOp>, RsyncResult> {
    if bytes.len() < 4 {
        Err(RsyncResult::Corrupt)
    } else if read_le32(bytes, 0) != MagicNumber::Delta.value_spec() as int {
        Err(RsyncResult::BadMagicError)
    } else {
        match parse_ops(bytes, 4) {
            Some(ops) => Ok(ops),
            None => Err(RsyncResult::Corrupt),
        }
    }
}

/// Appends the varint groups of `v`.
fn push_varint(out: &mut Vec<u8>, v: u64)
    ensures
        final(out)@ == old(out)@ + varint_bytes(v as int),
{
    let mut x: u64 = v;
    while x >= 128
        invariant
            out@ + varint_bytes(x as int) == old(out)@ + varint_bytes(v as int),
        decreases x,
    {
        let b: u8 = (128 + (x % 128)) as u8;
        let ghost pre = out@;
        out.push(b);
        proof {
            assert(varint_bytes(x as int) == seq![b] + varint_bytes(x as int / 128));
            assert(pre.push(b) + varint_bytes(x as int / 128) =~= pre + varint_bytes(x as int));
        }
        x = x / 128;
    }
    let ghost pre = out@;
    out.push(x as u8);
    proof {
        assert(varint_bytes(x as int) == seq![x as u8]);
        assert(pre.push(x as u8) =~= pre + varint_bytes(x as int));
    }
}

/// Reads the varint at `off` over at most `budget` groups.
fn read_varint(bytes: &[u8], off: usize, budget: u32) -> (r: Option<(u128, usize)>)
    requires
        budget <= 10,
        off <= bytes@.len(),
    ensures
        match r {
            Some((v, o)) => parse_varint(bytes@, off as int, budget as nat) == Some(
                (v as int, o as int),
            ) && off < o <= bytes@.len() && (v as int) < pow128(budget as nat),
            None => parse_varint(bytes@, off as int, budget as nat) is None,
        },
    decreases budget,
{
    if budget == 0 {
        return None;
    }
    if off >= bytes.len() {
        return None;
    }
    let b = bytes[off];
    if b < 128 {
        proof {
            assert(pow128(budget as nat) == 128 * pow128((budget - 1) as nat));
            lemma_pow128_pos((budget - 1) as nat);
        }
        Some((b as u128, off + 1))
    } else {
        match read_varint(bytes, off + 1, budget - 1) {
            Some((v, o)) => {
                proof {
                    assert(pow128(budget as nat) == 128 * pow128((budget - 1) as nat));
                    lemma_pow128_at_most_ten((budget - 1) as nat);
                    assert(((b - 128) as u128 as int) + 128 * (v as int) < pow128(budget as nat));
                }
                Some(((b - 128) as u128 + 128 * v, o))
            },
            None => None,
        }
    }
}

proof fn lemma_pow128_pos(budget: nat)
    ensures
        pow128(budget) >= 1,
    decreases budget,
{
    if budget > 0 {
        lemma_pow128_pos((budget - 1) as nat);
    }
}

proof fn lemma_pow128_at_most_ten(budget: nat)
    requires
        budget <= 10,
    ensures
        pow128(budget) <= 1180591620717411303424,
    decreases budget,
{
    reveal_with_fuel(pow128, 11);
    if budget > 0 {
        lemma_pow128_at_most_ten((budget - 1) as nat);
    }
}

impl Delta {
    /// Serializes the delta: the delta magic tag, then one tagged record per
    /// operation.
    pub fn into_bytes(self) -> (r: Vec<u8>)
        ensures
            r@ == delta_bytes_spec(self.ops_model()),
    {
        let ghost model = self.ops_model();
        let mut out: Vec<u8> = Vec::new();
        push_le32(&mut out, MagicNumber::Delta.value());
        let ghost header = out@;
        let mut k: usize = 0;
        while k < self.ops.len()
            invariant
                model == self.ops_model(),
                k <= self.ops@.len(),
                out@ == header + ops_bytes(model.subrange(0, k as int)),
            decreases self.ops@.len() - k,
        {
            match &self.ops[k] {
                DeltaOp::Copy { source_offset, length } => {
                    push_varint_copy(&mut out, *source_offset, *length);
                },
                DeltaOp::Literal { bytes } => {
                    out.push(0);
                    push_varint(&mut out, bytes.len() as u64);
                    append_bytes(&mut out, bytes.as_slice());
                },
            }
            proof {
                let prefix2 = model.subrange(0, k + 1);
                assert(prefix2.drop_last() =~= model.subrange(0, k as int));
                assert(prefix2.last() == model[k as int]);
                assert(out@ =~= header + ops_bytes(prefix2));
            }
            k = k + 1;
        }
        proof {
            assert(model.subrange(0, model.len() as int) =~= model);
        }
        out
    }

    /// Deserializes a delta, validating the header tag and every record.
    pub fn from_bytes(bytes: &[u8]) -> (r: Result<Delta, RsyncResult>)
        ensures
            match r {
                Ok(d) => parse_delta(bytes@) == Ok::<_, RsyncResult>(d.ops_model()),
                Err(e) => parse_delta(bytes@) == Err::<Seq<SpecOp>, _>(e),
            },
    {
        let n = bytes.len();
        if n < 4 {
            return Err(RsyncResult::Corrupt);
        }
        let magic = read_le32_at(bytes, 0);
        if magic != MagicNumber::Delta.value() {
            return Err(RsyncResult::BadMagicError);
        }
        let mut ops: Vec<DeltaOp> = Vec::new();
        let mut off: usize = 4;
        proof {
            assert(ops_model_of(ops@) =~= Seq::<SpecOp>::empty());
        }
        while off < n
            invariant
                n == bytes@.len(),
                n >= 4,
                read_le32(bytes@, 0) == MagicNumber::Delta.value_spec() as int,
                4 <= off <= n,
                match parse_ops(bytes@, off as int) {
                    Some(rest) => parse_ops(bytes@, 4) == Some(ops_model_of(ops@) + rest),
                    None => parse_ops(bytes@, 4) is None,
                },
            decreases n - off,
        {
            let ghost pre_ops = ops_model_of(ops@);
            let tag = bytes[off];
            if tag == 1 {
                let (o64, p1) = match read_varint(bytes, off + 1, 10) {
                    Some(r) => r,
                    None => {
                        return Err(RsyncResult::Corrupt);
                    },
                };
                let (l64, p2) = match read_varint(bytes, p1, 10) {
                    Some(r) => r,
                    None => {
                        return Err(RsyncResult::Corrupt);
                    },
                };
                if o64 > u64::MAX as u128 || l64 > u64::MAX as u128 {
                    return Err(RsyncResult::Corrupt);
                }
                let cop = DeltaOp::Copy {
                    source_offset: o64 as u64,
                    length: l64 as u64,
                };
                proof {
                    assert(ops_model_of(ops@.push(cop)) =~= pre_ops.push(op_model(cop)));
                    assert(pre_ops.push(op_model(cop)) + parse_ops(
                        bytes@,
                        p2 as int,
                    ).unwrap() =~= pre_ops + (seq![op_model(cop)] + parse_ops(
                        bytes@,
                        p2 as int,
                    ).unwrap()));
                }
                ops.push(cop);
                off = p2;
            } else if tag == 0 {
                let (l64, p1) = match read_varint(bytes, off + 1, 10) {
                    Some(r) => r,
                    None => {
                        return Err(RsyncResult::Corrupt);
                    },
                };
                if l64 > u64::MAX as u128 {
                    return Err(RsyncResult::Corrupt);
                }
                if (l64 as u64) > (n - p1) as u64 {
                    return Err(RsyncResult::Corrupt);
                }
                let l: usize = l64 as u64 as usize;
                let payload = slice_to_vec(slice_subrange(bytes, p1, p1 + l));
                let lit = DeltaOp::Literal { bytes: payload };
                proof {
                    assert(op_model(lit) == (SpecOp::Literal {
                        bytes: bytes@.subrange(p1 as int, p1 + l),
                    }));
                    assert(ops_model_of(ops@.push(lit)) =~= pre_ops.push(op_model(lit)));
                    assert(pre_ops.push(op_model(lit)) + parse_ops(
                        bytes@,
                        p1 + l,
                    ).unwrap() =~= pre_ops + (seq![op_model(lit)] + parse_ops(
                        bytes@,
                        p1 + l,
                    ).unwrap()));
                }
                ops.push(lit);
                off = p1 + l;
            } else {
                return Err(RsyncResult::Corrupt);
            }
        }
        proof {
            assert(parse_ops(bytes@, n as int) == Some(Seq::<SpecOp>::empty()));
            assert(ops_model_of(ops@) + Seq::<SpecOp>::empty() =~= ops_model_of(ops@));
        }
        Ok(Delta { ops })
    }
}

/// Whether an operation's numbers fit the 64-bit range its serialized form
/// is read back into.
pub open spec fn op_wf(op: SpecOp) -> bool {
    match op {
        SpecOp::Copy { source_offset, length } => 0 <= source_offset <= u64::MAX && 0 <= length
            <= u64::MAX,
        SpecOp::Literal { bytes } => bytes.len() <= u64::MAX,
    }
}

proof fn lemma_parse_varint_bytes(bytes: Seq<u8>, off: int, v: int, budget: nat)
    requires
        0 <= v,
        0 <= off,
        off + varint_bytes(v).len() <= bytes.len(),
        bytes.subrange(off, off + varint_bytes(v).len()) == varint_bytes(v),
        budget >= 1,
        v < pow128(budget),
    ensures
        parse_varint(bytes, off, budget) == Some((v, off + varint_bytes(v).len())),
    decreases budget,
{
    assert forall|j: int| off <= j < off + varint_bytes(v).len() implies bytes[j] == varint_bytes(
        v,
    )[j - off] by {
        assert(varint_bytes(v)[j - off] == bytes.subrange(off, off + varint_bytes(v).len())[j
            - off]);
    }
    if v < 128 {
        assert(bytes[off] == varint_bytes(v)[0]);
    } else {
        let b: u8 = (128 + v % 128) as u8;
        let tail = varint_bytes(v / 128);
        assert(bytes[off] == varint_bytes(v)[0]);
        assert(bytes[off] == b);
        vstd::arithmetic::div_mod::lemma_fundamental_div_mod(v, 128);
        assert(pow128(budget) == 128 * pow128((budget - 1) as nat));
        assert(v / 128 < pow128((budget - 1) as nat)) by (nonlinear_arith)
            requires
                v == 128 * (v / 128) + v % 128,
                0 <= v % 128 < 128,
                v < 128 * pow128((budget - 1) as nat),
        ;
        assert(budget >= 2) by {
            if budget == 1 {
                assert(pow128(1) == 128 * pow128(0));
            }
        }
        assert(bytes.subrange(off + 1, off + 1 + tail.len()) =~= tail);
        lemma_parse_varint_bytes(bytes, off + 1, v / 128, (budget - 1) as nat);
        assert((b - 128) + 128 * (v / 128) == v);
    }
}

proof fn lemma_ops_bytes_first(ops: Seq<SpecOp>)
    requires
        ops.len() >= 1,
    ensures
        ops_bytes(ops) == op_bytes(ops[0]) + ops_bytes(ops.subrange(1, ops.len() as int)),
    decreases ops.len(),
{
    let rest = ops.subrange(1, ops.len() as int);
    if ops.len() == 1 {
        assert(ops.drop_last() =~= Seq::<SpecOp>::empty());
        assert(rest =~= Seq::<SpecOp>::empty());
        assert(op_bytes(ops[0]) + ops_bytes(rest) =~= op_bytes(ops[0]));
        assert(ops_bytes(ops) =~= op_bytes(ops.last()));
    } else {
        let t = ops.drop_last();
        lemma_ops_bytes_first(t);
        assert(rest.drop_last() =~= t.subrange(1, t.len() as int));
        assert(rest.last() == ops.last());
        assert(t[0] == ops[0]);
        assert(ops_bytes(t) + op_bytes(ops.last()) =~= op_bytes(ops[0]) + (ops_bytes(
            t.subrange(1, t.len() as int),
        ) + op_bytes(rest.last())));
    }
}

proof fn lemma_parse_ops_of_bytes(bytes: Seq<u8>, off: int, ops: Seq<SpecOp>)
    requires
        0 <= off <= bytes.len(),
        bytes.subrange(off, bytes.len() as int) == ops_bytes(ops),
        forall|i: int| 0 <= i < ops.len() ==> op_wf(#[trigger] ops[i]),
    ensures
        parse_ops(bytes, off) == Some(ops),
    decreases ops.len(),
{
    reveal_with_fuel(pow128, 11);
    if ops.len() == 0 {
        assert(ops_bytes(ops) =~= Seq::<u8>::empty());
        assert(off == bytes.len());
        assert(Seq::<SpecOp>::empty() =~= ops);
    } else {
        lemma_ops_bytes_first(ops);
        let op0 = ops[0];
        let rest = ops.subrange(1, ops.len() as int);
        let ob = op_bytes(op0);
        let rb = ops_bytes(rest);
        let whole = ops_bytes(ops);
        assert(whole == ob + rb);
        assert(bytes.len() - off == whole.len());
        assert forall|j: int| off <= j < bytes.len() implies bytes[j] == whole[j - off] by {
            assert(whole[j - off] == bytes.subrange(off, bytes.len() as int)[j - off]);
        }
        assert(bytes[off] == ob[0]);
        match op0 {
            SpecOp::Copy { source_offset, length } => {
                let va = varint_bytes(source_offset);
                let vb = varint_bytes(length);
                assert(ob =~= seq![1u8] + va + vb);
                assert(bytes[off] == 1);
                assert(bytes.subrange(off + 1, off + 1 + va.len()) =~= va);
                lemma_parse_varint_bytes(bytes, off + 1, source_offset, 10);
                let p1 = off + 1 + va.len();
                assert(bytes.subrange(p1, p1 + vb.len()) =~= vb);
                lemma_parse_varint_bytes(bytes, p1, length, 10);
                let p2 = p1 + vb.len();
                assert(bytes.subrange(p2, bytes.len() as int) =~= rb);
                lemma_parse_ops_of_bytes(bytes, p2, rest);
                assert(seq![op0] + rest =~= ops);
            },
            SpecOp::Literal { bytes: payload } => {
                let va = varint_bytes(payload.len() as int);
                assert(ob =~= seq![0u8] + va + payload);
                assert(bytes[off] == 0);
                assert(bytes.subrange(off + 1, off + 1 + va.len()) =~= va);
                lemma_parse_varint_bytes(bytes, off + 1, payload.len() as int, 10);
                let p1 = off + 1 + va.len();
                assert(bytes.subrange(p1, p1 + payload.len()) =~= payload);
                let p2 = p1 + payload.len();
                assert(bytes.subrange(p2, bytes.len() as int) =~= rb);
                lemma_parse_ops_of_bytes(bytes, p2, rest);
                assert(seq![op0] + rest =~= ops);
            },
        }
    }
}

/// Serializing a delta and deserializing the bytes yields the same operation
/// list: the two serialized forms are mutually consistent.
pub proof fn lemma_delta_serde_round_trip(ops: Seq<SpecOp>)
    requires
        forall|i: int| 0 <= i < ops.len() ==> op_wf(#[trigger] ops[i]),
    ensures
        parse_delta(delta_bytes_spec(ops)) == Ok::<_, RsyncResult>(ops),
{
    let bytes = delta_bytes_spec(ops);
    assert(bytes.subrange(0, 4) =~= le32(MagicNumber::Delta.value_spec() as int));
    crate::wire::lemma_le32_read(bytes, 0, MagicNumber::Delta.value_spec() as int);
    assert(bytes.subrange(4, bytes.len() as int) =~= ops_bytes(ops));
    lemma_parse_ops_of_bytes(bytes, 4, ops);
}

/// Appends one Copy record.
fn push_varint_copy(out: &mut Vec<u8>, source_offset: u64, length: u64)
    ensures
        final(out)@ == old(out)@ + op_bytes(
            SpecOp::Copy { source_offset: source_offset as int, length: length as int },
        ),
{
    let ghost pre = out@;
    out.push(1);
    push_varint(out, source_offset);
    push_varint(out, length);
    proof {
        assert(pre.push(1u8) =~= pre + seq![1u8]);
        assert(pre + seq![1u8] + varint_bytes(source_offset as int) + varint_bytes(length as int)
            =~= pre + op_bytes(
            SpecOp::Copy { source_offset: source_offset as int, length: length as int },
        ));
    }
}

} // verus!
