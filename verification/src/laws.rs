//! The laws this library guarantees: the encoder/applier round trip, the
//! minimality of an identity delta, the all-literal delta of an empty
//! signature, and the rejection of out-of-range Copy operations.

use vstd::prelude::*;
use vstd::arithmetic::div_mod::{
    lemma_fundamental_div_mod, lemma_fundamental_div_mod_converse_div,
    lemma_mod_add_multiples_vanish,
};
use crate::checksum::{strong_trunc, weak_sum};
use crate::file::delta::{
    block_matches, copy_total, count_lit, encode_from, encode_spec, find_from, find_match_spec,
    flush_pending, lemma_find_from_char, lit_total, window_of, SpecOp,
};
use crate::file::patch::{
    apply_ops, apply_prefix, lemma_apply_prefix_none, lemma_apply_prefix_push, op_chunk,
};
use crate::file::signature::{block_at, generate_spec, lemma_num_blocks, num_blocks};

verus! {

/// The strong checksum is a fixed-size digest, so distinct byte sequences
/// can in principle share both checksums. This hypothesis rules that out for
/// the windows of one target against the blocks of one basis: whenever both
/// checksums agree, the bytes agree.
pub open spec fn no_collision(
    blocks: Seq<(u32, Seq<u8>)>,
    sl: int,
    bl: int,
    basis: Seq<u8>,
    target: Seq<u8>,
) -> bool {
    forall|pos: int, i: int|
        0 <= pos < target.len() && 0 <= i < blocks.len() && #[trigger] block_matches(
            blocks[i],
            sl,
            window_of(target, pos, bl),
        ) ==> window_of(target, pos, bl) == block_at(basis, bl, i)
}

proof fn lemma_flush_applies(basis: Seq<u8>, target: Seq<u8>, upto: int, pending: Seq<u8>, acc: Seq<SpecOp>)
    requires
        0 <= pending.len() <= upto <= target.len(),
        pending == target.subrange(upto - pending.len(), upto),
        apply_prefix(basis, acc, acc.len() as int) == Some(
            target.subrange(0, upto - pending.len()),
        ),
    ensures
        apply_prefix(
            basis,
            flush_pending(acc, pending),
            flush_pending(acc, pending).len() as int,
        ) == Some(target.subrange(0, upto)),
{
    let done = target.subrange(0, upto - pending.len());
    if pending.len() == 0 {
        assert(done =~= target.subrange(0, upto));
    } else {
        let lit = SpecOp::Literal { bytes: pending };
        let acc2 = acc.push(lit);
        lemma_apply_prefix_push(basis, acc, lit, acc.len() as int);
        assert(acc2[acc2.len() - 1] == lit);
        assert(op_chunk(basis, lit) == Some(pending));
        assert(done + pending =~= target.subrange(0, upto));
    }
}

proof fn lemma_encode_from_applies(
    basis: Seq<u8>,
    target: Seq<u8>,
    bl: int,
    sl: int,
    pos: int,
    pending: Seq<u8>,
    acc: Seq<SpecOp>,
)
    requires
        bl >= 1,
        no_collision(generate_spec(basis, bl, sl), sl, bl, basis, target),
        0 <= pending.len() <= pos <= target.len(),
        pending == target.subrange(pos - pending.len(), pos),
        apply_prefix(basis, acc, acc.len() as int) == Some(
            target.subrange(0, pos - pending.len()),
        ),
    ensures
        apply_ops(
            basis,
            encode_from(generate_spec(basis, bl, sl), sl, bl, target, pos, pending, acc),
        ) == Some(target),
    decreases target.len() - pos,
{
    let blocks = generate_spec(basis, bl, sl);
    if pos >= target.len() {
        lemma_flush_applies(basis, target, pos, pending, acc);
        assert(target.subrange(0, pos) =~= target);
    } else {
        let w = window_of(target, pos, bl);
        lemma_find_from_char(blocks, sl, w, 0);
        match find_match_spec(blocks, sl, w) {
            Some(i) => {
                assert(block_matches(blocks[i], sl, w));
                assert(w == block_at(basis, bl, i));
                lemma_num_blocks(basis.len() as int, bl);
                assert(basis.len() > 0);
                assert(i * bl < basis.len()) by (nonlinear_arith)
                    requires
                        0 <= i,
                        i <= num_blocks(basis.len() as int, bl) - 1,
                        bl >= 1,
                        (num_blocks(basis.len() as int, bl) - 1) * bl < basis.len(),
                ;
                assert(0 <= i * bl) by (nonlinear_arith)
                    requires
                        0 <= i,
                        bl >= 1,
                ;
                assert((i + 1) * bl == i * bl + bl) by (nonlinear_arith);
                let upper = if (i + 1) * bl <= basis.len() {
                    (i + 1) * bl
                } else {
                    basis.len() as int
                };
                assert(w.len() == upper - i * bl);
                let flushed = flush_pending(acc, pending);
                lemma_flush_applies(basis, target, pos, pending, acc);
                let cop = SpecOp::Copy { source_offset: i * bl, length: w.len() as int };
                let acc2 = flushed.push(cop);
                lemma_apply_prefix_push(basis, flushed, cop, flushed.len() as int);
                assert(acc2[acc2.len() - 1] == cop);
                assert(basis.subrange(i * bl, i * bl + w.len()) =~= block_at(basis, bl, i));
                assert(op_chunk(basis, cop) == Some(block_at(basis, bl, i)));
                assert(apply_prefix(basis, acc2, acc2.len() as int) == Some(
                    target.subrange(0, pos) + w,
                ));
                assert(target.subrange(0, pos) + w =~= target.subrange(0, pos + w.len()));
                assert(Seq::<u8>::empty() =~= target.subrange(
                    pos + w.len() - 0,
                    pos + w.len(),
                ));
                lemma_encode_from_applies(
                    basis,
                    target,
                    bl,
                    sl,
                    pos + w.len(),
                    Seq::empty(),
                    acc2,
                );
            },
            None => {
                assert(pending.push(target[pos]) =~= target.subrange(
                    pos + 1 - (pending.len() + 1),
                    pos + 1,
                ));
                lemma_encode_from_applies(
                    basis,
                    target,
                    bl,
                    sl,
                    pos + 1,
                    pending.push(target[pos]),
                    acc,
                );
            },
        }
    }
}

/// Round trip: for every basis and target, applying to the basis the delta
/// encoded from the basis's own signature reconstructs the target exactly,
/// provided the strong checksum does not collide between the target's
/// windows and the basis's blocks.
pub proof fn lemma_round_trip(basis: Seq<u8>, target: Seq<u8>, bl: int, sl: int)
    requires
        bl >= 1,
        no_collision(generate_spec(basis, bl, sl), sl, bl, basis, target),
    ensures
        apply_ops(basis, encode_spec(generate_spec(basis, bl, sl), sl, bl, target)) == Some(
            target,
        ),
{
    assert(Seq::<u8>::empty() =~= target.subrange(0, 0));
    assert(apply_prefix(basis, Seq::<SpecOp>::empty(), 0) == Some(Seq::<u8>::empty()));
    lemma_encode_from_applies(basis, target, bl, sl, 0, Seq::empty(), Seq::empty());
}

proof fn lemma_identity_from(basis: Seq<u8>, bl: int, sl: int, pos: int, acc: Seq<SpecOp>)
    requires
        bl >= 1,
        0 <= pos <= basis.len(),
        pos % bl == 0 || pos == basis.len(),
    ensures
        ({
            let r = encode_from(generate_spec(basis, bl, sl), sl, bl, basis, pos, Seq::empty(), acc);
            &&& count_lit(r) == count_lit(acc)
            &&& lit_total(r) == lit_total(acc)
            &&& copy_total(r) == copy_total(acc) + (basis.len() - pos)
        }),
    decreases basis.len() - pos,
{
    let blocks = generate_spec(basis, bl, sl);
    if pos >= basis.len() {
        assert(flush_pending(acc, Seq::empty()) == acc);
    } else {
        assert(pos % bl == 0);
        lemma_fundamental_div_mod(pos, bl);
        let k = pos / bl;
        assert(pos == k * bl) by (nonlinear_arith)
            requires
                pos == bl * k + pos % bl,
                pos % bl == 0,
        ;
        lemma_num_blocks(basis.len() as int, bl);
        assert(k >= 0) by (nonlinear_arith)
            requires
                pos == k * bl,
                pos >= 0,
                bl >= 1,
        ;
        assert(k < num_blocks(basis.len() as int, bl)) by (nonlinear_arith)
            requires
                pos == k * bl,
                pos < basis.len(),
                bl >= 1,
                k >= 0,
                num_blocks(basis.len() as int, bl) * bl >= basis.len(),
        ;
        assert((k + 1) * bl == k * bl + bl) by (nonlinear_arith);
        let w = window_of(basis, pos, bl);
        assert(block_at(basis, bl, k) =~= w);
        assert(blocks[k] == (weak_sum(w), strong_trunc(w, sl)));
        assert(block_matches(blocks[k], sl, w));
        lemma_find_from_char(blocks, sl, w, 0);
        match find_match_spec(blocks, sl, w) {
            Some(i) => {
                let cop = SpecOp::Copy { source_offset: i * bl, length: w.len() as int };
                let acc2 = flush_pending(acc, Seq::empty()).push(cop);
                assert(acc2.drop_last() =~= acc);
                assert(acc2.last() == cop);
                let pos2 = pos + w.len();
                if pos + bl <= basis.len() {
                    assert(w.len() == bl);
                    lemma_mod_add_multiples_vanish(pos, bl);
                    assert(pos2 % bl == 0);
                } else {
                    assert(pos2 == basis.len());
                }
                lemma_identity_from(basis, bl, sl, pos2, acc2);
            },
            None => {
                assert(false);
            },
        }
    }
}

/// Identity minimality: encoding a target identical to the basis against the
/// basis's own signature yields a delta of Copy operations alone — no
/// Literal at all, not even for a non-block-aligned tail — whose total Copy
/// length is exactly the basis length.
pub proof fn lemma_identity_minimal(basis: Seq<u8>, bl: int, sl: int)
    requires
        bl >= 1,
    ensures
        ({
            let r = encode_spec(generate_spec(basis, bl, sl), sl, bl, basis);
            &&& count_lit(r) == 0
            &&& lit_total(r) == 0
            &&& copy_total(r) == basis.len()
        }),
{
    lemma_identity_from(basis, bl, sl, 0, Seq::empty());
}

proof fn lemma_all_literal_from(
    sl: int,
    bl: int,
    target: Seq<u8>,
    pos: int,
    pending: Seq<u8>,
    acc: Seq<SpecOp>,
)
    requires
        bl >= 1,
        0 <= pos <= target.len(),
    ensures
        encode_from(Seq::empty(), sl, bl, target, pos, pending, acc) == flush_pending(
            acc,
            pending + target.subrange(pos, target.len() as int),
        ),
    decreases target.len() - pos,
{
    if pos >= target.len() {
        assert(pending + target.subrange(pos, target.len() as int) =~= pending);
    } else {
        let w = window_of(target, pos, bl);
        assert(find_from(Seq::<(u32, Seq<u8>)>::empty(), sl, w, 0) is None);
        lemma_all_literal_from(sl, bl, target, pos + 1, pending.push(target[pos]), acc);
        assert(pending.push(target[pos]) + target.subrange(pos + 1, target.len() as int)
            =~= pending + target.subrange(pos, target.len() as int));
    }
}

/// Empty basis: an empty basis yields a signature with zero blocks, and
/// encoding any target against it yields exactly one Literal op holding the
/// whole target (and an empty delta for an empty target).
pub proof fn lemma_empty_basis(target: Seq<u8>, bl: int, sl: int)
    requires
        bl >= 1,
    ensures
        generate_spec(Seq::<u8>::empty(), bl, sl) == Seq::<(u32, Seq<u8>)>::empty(),
        encode_spec(generate_spec(Seq::<u8>::empty(), bl, sl), sl, bl, target) == (
        if target.len() == 0 {
            Seq::<SpecOp>::empty()
        } else {
            seq![SpecOp::Literal { bytes: target }]
        }),
{
    lemma_fundamental_div_mod_converse_div(bl - 1, bl, 0, bl - 1);
    assert(num_blocks(0, bl) == 0);
    assert(generate_spec(Seq::<u8>::empty(), bl, sl) =~= Seq::<(u32, Seq<u8>)>::empty());
    lemma_all_literal_from(sl, bl, target, 0, Seq::empty(), Seq::empty());
    assert(Seq::<u8>::empty() + target.subrange(0, target.len() as int) =~= target);
    if target.len() > 0 {
        assert(Seq::<SpecOp>::empty().push(SpecOp::Literal { bytes: target }) =~= seq![
            SpecOp::Literal { bytes: target },
        ]);
    }
}

/// Whether `op` is a Copy that reaches beyond the end of `basis`.
pub open spec fn copy_out_of_range(basis: Seq<u8>, op: SpecOp) -> bool {
    match op {
        SpecOp::Copy { source_offset, length } => source_offset < 0 || length < 0
            || source_offset + length > basis.len(),
        SpecOp::Literal { .. } => false,
    }
}

/// Corruption rejection: a delta holding any Copy that references bytes past
/// the end of the basis does not replay; applying it fails.
pub proof fn lemma_corrupt_copy_rejected(basis: Seq<u8>, ops: Seq<SpecOp>, k: int)
    requires
        0 <= k < ops.len(),
        copy_out_of_range(basis, ops[k]),
    ensures
        apply_ops(basis, ops) is None,
{
    assert(op_chunk(basis, ops[k]) is None);
    assert(apply_prefix(basis, ops, k + 1) is None);
    lemma_apply_prefix_none(basis, ops, k + 1, ops.len() as int);
}

} // verus!
