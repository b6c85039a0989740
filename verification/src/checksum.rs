//! Weak and strong checksums over byte sequences.
//!
//! The weak checksum is a 32-bit rolling sum: the low 16 bits are the byte
//! sum modulo 2^16, the high 16 bits a position-weighted sum modulo 2^16.
//! It supports O(1) updates when the window slides by one byte.
//! The strong checksum is an MD5 digest, optionally truncated.

use vstd::prelude::*;
use vstd::arithmetic::div_mod::{
    lemma_fundamental_div_mod, lemma_mod_multiples_vanish, lemma_mod_pos_bound,
    lemma_mul_mod_noop_left, lemma_small_mod,
};

verus! {

/// Sum of the bytes of `s`, as an unbounded integer.
pub open spec fn sum_a(s: Seq<u8>) -> int
    decreases s.len(),
{
    if s.len() == 0 {
        0
    } else {
        sum_a(s.drop_last()) + s.last()
    }
}

/// Position-weighted sum of the bytes of `s`: byte `i` counts with
/// weight `s.len() - i`.
pub open spec fn sum_b(s: Seq<u8>) -> int
    decreases s.len(),
{
    if s.len() == 0 {
        0
    } else {
        sum_b(s.drop_last()) + sum_a(s)
    }
}

/// Low half of the weak checksum.
pub open spec fn weak_a(s: Seq<u8>) -> int {
    sum_a(s) % 65536
}

/// High half of the weak checksum.
pub open spec fn weak_b(s: Seq<u8>) -> int {
    sum_b(s) % 65536
}

/// The combined 32-bit weak checksum of a byte sequence.
pub open spec fn weak_sum(s: Seq<u8>) -> u32 {
    (weak_a(s) + 65536 * weak_b(s)) as u32
}

pub proof fn lemma_sums_nonneg(s: Seq<u8>)
    ensures
        0 <= sum_a(s),
        0 <= sum_b(s),
    decreases s.len(),
{
    if s.len() > 0 {
        lemma_sums_nonneg(s.drop_last());
    }
}

pub proof fn lemma_weak_parts_bounded(s: Seq<u8>)
    ensures
        0 <= weak_a(s) < 65536,
        0 <= weak_b(s) < 65536,
{
    lemma_sums_nonneg(s);
    lemma_mod_pos_bound(sum_a(s), 65536);
    lemma_mod_pos_bound(sum_b(s), 65536);
}

pub proof fn lemma_sum_a_push(s: Seq<u8>, y: u8)
    ensures
        sum_a(s.push(y)) == sum_a(s) + y,
{
    assert(s.push(y).drop_last() =~= s);
}

pub proof fn lemma_sum_b_push(s: Seq<u8>, y: u8)
    ensures
        sum_b(s.push(y)) == sum_b(s) + sum_a(s) + y,
{
    assert(s.push(y).drop_last() =~= s);
    lemma_sum_a_push(s, y);
}

pub proof fn lemma_sum_a_drop_first(s: Seq<u8>)
    requires
        s.len() >= 1,
    ensures
        sum_a(s.subrange(1, s.len() as int)) == sum_a(s) - s[0],
    decreases s.len(),
{
    let ss = s.subrange(1, s.len() as int);
    if s.len() == 1 {
        assert(ss =~= Seq::<u8>::empty());
        assert(s.drop_last() =~= Seq::<u8>::empty());
    } else {
        let t = s.drop_last();
        lemma_sum_a_drop_first(t);
        assert(ss.drop_last() =~= t.subrange(1, t.len() as int));
        assert(ss.last() == s.last());
        assert(t[0] == s[0]);
    }
}

pub proof fn lemma_sum_b_drop_first(s: Seq<u8>)
    requires
        s.len() >= 1,
    ensures
        sum_b(s.subrange(1, s.len() as int)) == sum_b(s) - s.len() * s[0],
    decreases s.len(),
{
    let ss = s.subrange(1, s.len() as int);
    if s.len() == 1 {
        assert(ss =~= Seq::<u8>::empty());
        assert(s.drop_last() =~= Seq::<u8>::empty());
        assert(s.len() * s[0] == s[0]) by (nonlinear_arith)
            requires
                s.len() == 1,
        ;
        assert(sum_a(s) == s[0]) by {
            reveal_with_fuel(sum_a, 2);
        }
        assert(sum_b(s) == sum_a(s)) by {
            reveal_with_fuel(sum_b, 2);
        }
    } else {
        let t = s.drop_last();
        lemma_sum_b_drop_first(t);
        lemma_sum_a_drop_first(s);
        assert(ss.drop_last() =~= t.subrange(1, t.len() as int));
        assert(ss.last() == s.last());
        assert(t[0] == s[0]);
        assert((s.len() - 1) * s[0] + s[0] == s.len() * s[0]) by (nonlinear_arith);
    }
}

/// `(v + k * 65536) % 65536 == v % 65536` for any integer factor `k`.
proof fn lemma_mod_strip(v: int, k: int)
    ensures
        (v + k * 65536) % 65536 == v % 65536,
{
    lemma_mod_multiples_vanish(k, v, 65536);
    assert(65536 * k == k * 65536) by (nonlinear_arith);
}

/// Computes the two 16-bit halves of the weak checksum of `data` from
/// scratch.
pub fn weak_pair(data: &[u8]) -> (r: (u32, u32))
    ensures
        r.0 as int == weak_a(data@),
        r.1 as int == weak_b(data@),
{
    let mut a: u32 = 0;
    let mut b: u32 = 0;
    let mut i: usize = 0;
    while i < data.len()
        invariant
            i <= data.len(),
            a as int == weak_a(data@.subrange(0, i as int)),
            b as int == weak_b(data@.subrange(0, i as int)),
        decreases data.len() - i,
    {
        let x = data[i];
        proof {
            let pre = data@.subrange(0, i as int);
            let post = data@.subrange(0, i + 1);
            assert(post =~= pre.push(x));
            lemma_sum_a_push(pre, x);
            lemma_sum_b_push(pre, x);
            lemma_weak_parts_bounded(pre);
            lemma_weak_parts_bounded(post);
            // a + x is sum_a(pre) % m + x; strip the multiple of the modulus
            lemma_fundamental_div_mod(sum_a(pre), 65536);
            lemma_fundamental_div_mod(sum_b(pre), 65536);
            lemma_fundamental_div_mod(sum_a(post), 65536);
            let qa = sum_a(pre) / 65536;
            let qb = sum_b(pre) / 65536;
            let qa2 = sum_a(post) / 65536;
            lemma_mod_strip(sum_a(post), -qa);
            assert((a + x) as int == sum_a(post) + (-qa) * 65536);
            assert(((a + x as u32) % 65536) as int == weak_a(post));
            lemma_mod_strip(sum_b(post), -qb - qa2);
            assert((b + (a + x as u32) % 65536) as int == sum_b(post) + (-qb - qa2) * 65536);
        }
        a = (a + x as u32) % 65536;
        b = (b + a) % 65536;
        i = i + 1;
    }
    proof {
        assert(data@.subrange(0, data@.len() as int) =~= data@);
    }
    (a, b)
}

/// Combines the two 16-bit halves into the 32-bit weak checksum.
pub fn weak_combine(a: u32, b: u32, w: Ghost<Seq<u8>>) -> (r: u32)
    requires
        a as int == weak_a(w@),
        b as int == weak_b(w@),
    ensures
        r == weak_sum(w@),
{
    proof {
        lemma_weak_parts_bounded(w@);
    }
    a + b * 65536
}

/// Slides the window one byte forward: drops leading byte `x`, appends `y`.
/// O(1) update of both halves of the weak checksum.
pub fn weak_roll(a: u32, b: u32, wlen: usize, x: u8, y: u8, w: Ghost<Seq<u8>>) -> (r: (u32, u32))
    requires
        w@.len() == wlen,
        wlen >= 1,
        w@[0] == x,
        a as int == weak_a(w@),
        b as int == weak_b(w@),
    ensures
        r.0 as int == weak_a(w@.subrange(1, w@.len() as int).push(y)),
        r.1 as int == weak_b(w@.subrange(1, w@.len() as int).push(y)),
{
    let lm: u32 = (wlen % 65536) as u32;
    let xv: u32 = x as u32;
    proof {
        lemma_mod_pos_bound(wlen as int, 65536);
        assert((lm as int) * (xv as int) <= 65535 * 255) by (nonlinear_arith)
            requires
                lm as int <= 65535,
                xv as int <= 255,
        ;
    }
    let lx: u32 = (lm * xv) % 65536;
    let a2: u32 = (a + 65536 - xv + y as u32) % 65536;
    let b2: u32 = (b + 65536 - lx + a2) % 65536;
    proof {
        let ww = w@;
        let dropped = ww.subrange(1, ww.len() as int);
        let rolled = dropped.push(y);
        lemma_sum_a_drop_first(ww);
        lemma_sum_b_drop_first(ww);
        lemma_sum_a_push(dropped, y);
        lemma_sum_b_push(dropped, y);
        let sa2 = sum_a(rolled);
        let sb2 = sum_b(rolled);
        assert(sa2 == sum_a(ww) - x + y);
        assert(sb2 == sum_b(ww) - ww.len() * x + sa2);
        lemma_weak_parts_bounded(ww);
        lemma_weak_parts_bounded(rolled);
        lemma_fundamental_div_mod(sum_a(ww), 65536);
        lemma_fundamental_div_mod(sum_b(ww), 65536);
        let qa = sum_a(ww) / 65536;
        let qb = sum_b(ww) / 65536;
        // a + 65536 - x + y == sa2 + (1 - qa) * 65536
        lemma_mod_strip(sa2, 1 - qa);
        assert((a + 65536 - xv + y) as int == sa2 + (1 - qa) * 65536);
        assert(a2 as int == weak_a(rolled));
        // relate lx to (len * x) % 65536
        lemma_mul_mod_noop_left(wlen as int, x as int, 65536);
        lemma_mod_pos_bound(wlen as int, 65536);
        lemma_mod_pos_bound(wlen as int * x as int, 65536);
        assert(lm as int == wlen as int % 65536);
        assert(lx as int == (wlen as int % 65536) * (x as int) % 65536) by {
            lemma_small_mod((lm * xv) as nat % 65536, 65536);
        }
        assert(lx as int == (ww.len() * x) % 65536);
        lemma_fundamental_div_mod(ww.len() * x as int, 65536);
        let ql = ww.len() * x as int / 65536;
        // b + 65536 - lx + a2 == sb2 + (1 - qb + ql - qa2') * 65536
        let qa2 = (sa2 + (1 - qa) * 65536) / 65536;
        lemma_fundamental_div_mod(sa2 + (1 - qa) * 65536, 65536);
        assert((b + 65536 - lx + a2) as int == sb2 + (1 - qb + ql + 1 - qa - qa2) * 65536)
            by (nonlinear_arith)
            requires
                b as int == sum_b(ww) % 65536,
                sum_b(ww) == qb * 65536 + sum_b(ww) % 65536,
                lx as int == ww.len() * (x as int) - ql * 65536,
                0 <= lx < 65536,
                a2 as int == sa2 + (1 - qa) * 65536 - qa2 * 65536,
                sb2 == sum_b(ww) - ww.len() * (x as int) + sa2,
        ;
        lemma_mod_strip(sb2, 1 - qb + ql + 1 - qa - qa2);
        assert(b2 as int == weak_b(rolled));
    }
    (a2, b2)
}

/// Shrinks the window by dropping its leading byte `x` (used at the end of
/// the target, where no byte enters on the right).
pub fn weak_shrink(a: u32, b: u32, wlen: usize, x: u8, w: Ghost<Seq<u8>>) -> (r: (u32, u32))
    requires
        w@.len() == wlen,
        wlen >= 1,
        w@[0] == x,
        a as int == weak_a(w@),
        b as int == weak_b(w@),
    ensures
        r.0 as int == weak_a(w@.subrange(1, w@.len() as int)),
        r.1 as int == weak_b(w@.subrange(1, w@.len() as int)),
{
    let lm: u32 = (wlen % 65536) as u32;
    let xv: u32 = x as u32;
    proof {
        lemma_mod_pos_bound(wlen as int, 65536);
        assert((lm as int) * (xv as int) <= 65535 * 255) by (nonlinear_arith)
            requires
                lm as int <= 65535,
                xv as int <= 255,
        ;
    }
    let lx: u32 = (lm * xv) % 65536;
    let a2: u32 = (a + 65536 - xv) % 65536;
    let b2: u32 = (b + 65536 - lx) % 65536;
    proof {
        let ww = w@;
        let dropped = ww.subrange(1, ww.len() as int);
        lemma_sum_a_drop_first(ww);
        lemma_sum_b_drop_first(ww);
        let sa2 = sum_a(dropped);
        let sb2 = sum_b(dropped);
        lemma_weak_parts_bounded(ww);
        lemma_weak_parts_bounded(dropped);
        lemma_fundamental_div_mod(sum_a(ww), 65536);
        lemma_fundamental_div_mod(sum_b(ww), 65536);
        let qa = sum_a(ww) / 65536;
        let qb = sum_b(ww) / 65536;
        lemma_mod_strip(sa2, 1 - qa);
        assert((a + 65536 - xv) as int == sa2 + (1 - qa) * 65536);
        lemma_mul_mod_noop_left(wlen as int, x as int, 65536);
        lemma_mod_pos_bound(wlen as int, 65536);
        lemma_mod_pos_bound(wlen as int * x as int, 65536);
        assert(lx as int == (wlen as int % 65536) * (x as int) % 65536) by {
            lemma_small_mod((lm * xv) as nat % 65536, 65536);
        }
        assert(lx as int == (ww.len() * x) % 65536);
        lemma_fundamental_div_mod(ww.len() * x as int, 65536);
        let ql = ww.len() * x as int / 65536;
        assert((b + 65536 - lx) as int == sb2 + (1 - qb + ql) * 65536) by (nonlinear_arith)
            requires
                b as int == sum_b(ww) % 65536,
                sum_b(ww) == qb * 65536 + sum_b(ww) % 65536,
                lx as int == ww.len() * (x as int) - ql * 65536,
                0 <= lx < 65536,
                sb2 == sum_b(ww) - ww.len() * (x as int),
        ;
        lemma_mod_strip(sb2, 1 - qb + ql);
        assert(b2 as int == weak_b(dropped));
    }
    (a2, b2)
}

/// The MD5 digest of a byte sequence; 16 bytes, a function of the input
/// bytes alone. Named here so that contracts can speak of it; nothing in
/// this crate states what its value is on any given input.
pub uninterp spec fn md5_of(bytes: Seq<u8>) -> Seq<u8>;

/// Relies on md5::compute (crate `md5`): the digest depends on the input
/// bytes alone and is always 16 bytes long.
#[verifier::external_body]
pub(crate) fn md5_digest(bytes: &[u8]) -> (r: Vec<u8>)
    ensures
        r@ == md5_of(bytes@),
        r@.len() == 16,
{
    md5::compute(bytes).0.to_vec()
}

/// The strong checksum: the MD5 digest truncated to its first `sl` bytes.
pub open spec fn strong_trunc(bytes: Seq<u8>, sl: int) -> Seq<u8> {
    md5_of(bytes).subrange(0, sl)
}

/// Computes the strong checksum of `bytes`, truncated to `sl` bytes.
pub fn strong_sum(bytes: &[u8], sl: usize) -> (r: Vec<u8>)
    requires
        sl <= 16,
    ensures
        r@ == strong_trunc(bytes@, sl as int),
        r@.len() == sl,
{
    let mut d = md5_digest(bytes);
    d.truncate(sl);
    d
}

/// Byte-for-byte equality of two slices.
pub fn bytes_eq(a: &[u8], b: &[u8]) -> (r: bool)
    ensures
        r == (a@ == b@),
{
    if a.len() != b.len() {
        proof {
            assert(a@.len() != b@.len());
        }
        return false;
    }
    let mut i: usize = 0;
    while i < a.len()
        invariant
            i <= a.len(),
            a@.len() == b@.len(),
            forall|j: int| 0 <= j < i ==> a@[j] == b@[j],
        decreases a.len() - i,
    {
        if a[i] != b[i] {
            return false;
        }
        i = i + 1;
    }
    proof {
        assert(a@ =~= b@);
    }
    true
}

} // verus!
