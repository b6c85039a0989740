//! Patch application: replays a delta's operations in order against a
//! random-access basis buffer to reconstruct the target.

use vstd::prelude::*;
use vstd::slice::slice_subrange;
use crate::file::delta::{Delta, DeltaOp, SpecOp};
use crate::wire::append_bytes;
use crate::RsyncResult;

verus! {

/// The bytes one operation contributes, or `None` for a Copy that reaches
/// beyond the basis.
pub open spec fn op_chunk(basis: Seq<u8>, op: SpecOp) -> Option<Seq<u8>> {
    match op {
        SpecOp::Copy { source_offset, length } => {
            if 0 <= source_offset && 0 <= length && source_offset + length <= basis.len() {
                Some(basis.subrange(source_offset, source_offset + length))
            } else {
                None
            }
        },
        SpecOp::Literal { bytes } => Some(bytes),
    }
}

/// The output of replaying the first `k` operations in order, or `None` once
/// any of them is invalid.
pub open spec fn apply_prefix(basis: Seq<u8>, ops: Seq<SpecOp>, k: int) -> Option<Seq<u8>>
    decreases k,
{
    if k <= 0 {
        Some(Seq::<u8>::empty())
    } else {
        match (apply_prefix(basis, ops, k - 1), op_chunk(basis, ops[k - 1])) {
            (Some(out), Some(chunk)) => Some(out + chunk),
            _ => None,
        }
    }
}

/// The output of replaying a whole operation list.
pub open spec fn apply_ops(basis: Seq<u8>, ops: Seq<SpecOp>) -> Option<Seq<u8>> {
    apply_prefix(basis, ops, ops.len() as int)
}

/// Once a prefix fails, every longer prefix fails.
pub proof fn lemma_apply_prefix_none(basis: Seq<u8>, ops: Seq<SpecOp>, k: int, m: int)
    requires
        0 <= k <= m,
        apply_prefix(basis, ops, k) is None,
    ensures
        apply_prefix(basis, ops, m) is None,
    decreases m - k,
{
    if m > k {
        lemma_apply_prefix_none(basis, ops, k, m - 1);
    }
}

/// A prefix of the operation list replays the same whether or not one more
/// operation stands at its end.
pub proof fn lemma_apply_prefix_push(basis: Seq<u8>, ops: Seq<SpecOp>, op: SpecOp, k: int)
    requires
        0 <= k <= ops.len(),
    ensures
        apply_prefix(basis, ops.push(op), k) == apply_prefix(basis, ops, k),
    decreases k,
{
    if k > 0 {
        lemma_apply_prefix_push(basis, ops, op, k - 1);
        assert(ops.push(op)[k - 1] == ops[k - 1]);
    }
}

/// Replays the delta's operations strictly in order against the basis.
/// A Copy reads exactly `length` bytes at `source_offset`; a Literal emits
/// its bytes verbatim. Succeeds with the replayed output exactly when every
/// Copy lies within the basis; otherwise fails with `Corrupt`, writing no
/// output beyond the point of detection.
pub fn patch_file(basis: &[u8], delta: &Delta) -> (r: Result<Vec<u8>, RsyncResult>)
    ensures
        match r {
            Ok(out) => apply_ops(basis@, delta.ops_model()) == Some(out@),
            Err(e) => e == RsyncResult::Corrupt && apply_ops(basis@, delta.ops_model()) is None,
        },
{
    let ghost ops = delta.ops_model();
    let mut out: Vec<u8> = Vec::new();
    proof {
        assert(out@ =~= Seq::<u8>::empty());
    }
    let nops = delta.ops.len();
    let mut k: usize = 0;
    while k < nops
        invariant
            ops == delta.ops_model(),
            nops == delta.ops@.len(),
            k <= nops,
            apply_prefix(basis@, ops, k as int) == Some(out@),
        decreases nops - k,
    {
        let ghost pre_out = out@;
        match &delta.ops[k] {
            DeltaOp::Copy { source_offset, length } => {
                let off: u64 = *source_offset;
                let len: u64 = *length;
                let blen: u64 = basis.len() as u64;
                if off > blen || len > blen - off {
                    proof {
                        assert(op_chunk(basis@, ops[k as int]) is None);
                        lemma_apply_prefix_none(basis@, ops, k + 1, ops.len() as int);
                    }
                    return Err(RsyncResult::Corrupt);
                }
                let chunk = slice_subrange(basis, off as usize, (off + len) as usize);
                append_bytes(&mut out, chunk);
                proof {
                    assert(op_chunk(basis@, ops[k as int]) == Some(chunk@));
                }
            },
            DeltaOp::Literal { bytes } => {
                append_bytes(&mut out, bytes.as_slice());
                proof {
                    assert(op_chunk(basis@, ops[k as int]) == Some(bytes@));
                }
            },
        }
        proof {
            assert(apply_prefix(basis@, ops, k + 1) == Some(out@));
        }
        k = k + 1;
    }
    Ok(out)
}

} // verus!
