//! Big-endian encoding of timestamps for the embedded metadata backend. The
//! backend keys its access-time and expiry index trees by the encoded
//! timestamp; big-endian order guarantees that the tree's lexicographic scan
//! visits entries in timestamp order, so "evict oldest" and "collect
//! expired" are prefix reads. That guarantee is proved here.

use vstd::prelude::*;

verus! {

/// 256 to the `n`.
pub open spec fn pow256(n: nat) -> int
    decreases n,
{
    if n == 0 {
        1
    } else {
        256 * pow256((n - 1) as nat)
    }
}

/// The `n`-byte big-endian encoding of `x`: high bytes first.
pub open spec fn spec_be_bytes(x: int, n: nat) -> Seq<u8>
    decreases n,
{
    if n == 0 {
        Seq::empty()
    } else {
        spec_be_bytes(x / 256, (n - 1) as nat).push((x % 256) as u8)
    }
}

/// The integer a big-endian byte string denotes.
pub open spec fn spec_from_be(s: Seq<u8>) -> int
    decreases s.len(),
{
    if s.len() == 0 {
        0
    } else {
        spec_from_be(s.drop_last()) * 256 + s.last()
    }
}

/// Strict lexicographic order on equal-length byte strings.
pub open spec fn lex_less(x: Seq<u8>, y: Seq<u8>) -> bool
    recommends
        x.len() == y.len(),
    decreases x.len(),
{
    if x.len() == 0 {
        false
    } else if x[0] < y[0] {
        true
    } else {
        x[0] == y[0] && lex_less(
            x.subrange(1, x.len() as int),
            y.subrange(1, y.len() as int),
        )
    }
}

fn be_rec(x: u64, n: usize) -> (r: Vec<u8>)
    ensures
        r@ == spec_be_bytes(x as int, n as nat),
    decreases n,
{
    if n == 0 {
        let r: Vec<u8> = Vec::new();
        proof {
            assert(r@ =~= spec_be_bytes(x as int, 0));
        }
        r
    } else {
        let mut r = be_rec(x / 256, n - 1);
        r.push((x % 256) as u8);
        proof {
            assert(r@ =~= spec_be_bytes(x as int, n as nat));
        }
        r
    }
}

/// Encodes a timestamp as eight big-endian bytes, as the index trees key
/// their entries.
pub fn u64_to_be_bytes(x: u64) -> (r: Vec<u8>)
    ensures
        r@ == spec_be_bytes(x as int, 8),
        r@.len() == 8,
{
    let r = be_rec(x, 8);
    proof {
        lemma_be_len(x as int, 8);
    }
    r
}

/// The encoding is `n` bytes long.
pub proof fn lemma_be_len(x: int, n: nat)
    ensures
        spec_be_bytes(x, n).len() == n,
    decreases n,
{
    if n > 0 {
        lemma_be_len(x / 256, (n - 1) as nat);
    }
}

/// Decodes eight big-endian bytes back into the timestamp.
pub fn u64_from_be_bytes(s: &Vec<u8>) -> (r: u64)
    requires
        s@.len() == 8,
    ensures
        r == spec_from_be(s@),
{
    proof {
        lemma_pow256_values();
    }
    let mut acc: u64 = 0;
    let mut i: usize = 0;
    proof {
        assert(s@.subrange(0, 0) =~= Seq::<u8>::empty());
    }
    while i < 8
        invariant
            i <= 8,
            s@.len() == 8,
            acc == spec_from_be(s@.subrange(0, i as int)),
            acc < pow256(i as nat),
            pow256(8) == 0x1_0000_0000_0000_0000,
        decreases 8 - i,
    {
        proof {
            lemma_pow256_values();
            assert(pow256((i + 1) as nat) == 256 * pow256(i as nat));
            assert(acc * 256 + 255 < pow256((i + 1) as nat)) by (nonlinear_arith)
                requires
                    acc < pow256(i as nat),
                    pow256((i + 1) as nat) == 256 * pow256(i as nat),
            ;
            assert(pow256((i + 1) as nat) <= pow256(8));
            let pre = s@.subrange(0, i + 1);
            assert(pre.drop_last() =~= s@.subrange(0, i as int));
            assert(pre.last() == s@[i as int]);
        }
        acc = acc * 256 + (s[i] as u64);
        i = i + 1;
    }
    proof {
        assert(s@.subrange(0, 8) =~= s@);
    }
    acc
}

/// The concrete powers of 256 up to eight bytes.
pub proof fn lemma_pow256_values()
    ensures
        pow256(0) == 1,
        pow256(1) == 0x100,
        pow256(2) == 0x1_0000,
        pow256(3) == 0x100_0000,
        pow256(4) == 0x1_0000_0000,
        pow256(5) == 0x100_0000_0000,
        pow256(6) == 0x1_0000_0000_0000,
        pow256(7) == 0x100_0000_0000_0000,
        pow256(8) == 0x1_0000_0000_0000_0000,
        forall|a: nat, b: nat| #![trigger pow256(a), pow256(b)] a <= b ==> pow256(a) <= pow256(b),
{
    assert(pow256(0) == 1);
    assert(pow256(1) == 0x100);
    assert(pow256(2) == 0x1_0000);
    assert(pow256(3) == 0x100_0000);
    assert(pow256(4) == 0x1_0000_0000);
    assert(pow256(5) == 0x100_0000_0000);
    assert(pow256(6) == 0x1_0000_0000_0000);
    assert(pow256(7) == 0x100_0000_0000_0000);
    assert(pow256(8) == 0x1_0000_0000_0000_0000);
    assert forall|a: nat, b: nat| #![trigger pow256(a), pow256(b)] a <= b implies pow256(a)
        <= pow256(b) by {
        lemma_pow256_monotone(a, b);
    }
}

/// Powers of 256 grow with the exponent.
pub proof fn lemma_pow256_monotone(a: nat, b: nat)
    requires
        a <= b,
    ensures
        pow256(a) <= pow256(b),
        pow256(a) > 0,
    decreases b,
{
    if b > 0 {
        lemma_pow256_monotone(if a == 0 {
            0
        } else {
            (a - 1) as nat
        }, (b - 1) as nat);
        if a == b {
        } else {
            lemma_pow256_monotone(a, (b - 1) as nat);
        }
    }
}

/// Decoding undoes encoding for every value that fits in `n` bytes.
pub proof fn lemma_be_round_trip(x: int, n: nat)
    requires
        0 <= x < pow256(n),
    ensures
        spec_from_be(spec_be_bytes(x, n)) == x,
    decreases n,
{
    if n == 0 {
    } else {
        lemma_pow256_monotone((n - 1) as nat, (n - 1) as nat);
        assert(x / 256 < pow256((n - 1) as nat)) by (nonlinear_arith)
            requires
                0 <= x < pow256(n),
                pow256(n) == 256 * pow256((n - 1) as nat),
        ;
        lemma_be_round_trip(x / 256, (n - 1) as nat);
        let s = spec_be_bytes(x, n);
        assert(s.drop_last() =~= spec_be_bytes(x / 256, (n - 1) as nat));
        assert(s.last() == (x % 256) as u8);
    }
}

/// Lexicographic order on a pair of appended bytes: the prefixes decide, and
/// equal prefixes fall through to the appended bytes.
pub proof fn lemma_lex_push(u: Seq<u8>, v: Seq<u8>, a: u8, b: u8)
    requires
        u.len() == v.len(),
    ensures
        lex_less(u.push(a), v.push(b)) == (lex_less(u, v) || (u == v && a < b)),
    decreases u.len(),
{
    reveal_with_fuel(lex_less, 3);
    let up = u.push(a);
    let vp = v.push(b);
    if u.len() == 0 {
        assert(up[0] == a && vp[0] == b);
        assert(up.subrange(1, 1) =~= Seq::<u8>::empty());
        assert(vp.subrange(1, 1) =~= Seq::<u8>::empty());
        if a >= b {
            assert(!lex_less(up, vp));
        }
        assert(u =~= v);
    } else {
        assert(up[0] == u[0] && vp[0] == v[0]);
        let ut = u.subrange(1, u.len() as int);
        let vt = v.subrange(1, v.len() as int);
        assert(up.subrange(1, up.len() as int) =~= ut.push(a));
        assert(vp.subrange(1, vp.len() as int) =~= vt.push(b));
        lemma_lex_push(ut, vt, a, b);
        if u[0] == v[0] {
            if ut == vt {
                assert forall|j: int| 0 <= j < u.len() implies u[j] == v[j] by {
                    if j > 0 {
                        assert(ut[j - 1] == vt[j - 1]);
                    }
                }
                assert(u =~= v);
            }
            if u == v {
                assert(ut =~= vt);
            }
        }
    }
}

/// Big-endian order is timestamp order: for values that fit in `n` bytes,
/// the encodings compare lexicographically exactly as the values compare.
pub proof fn lemma_be_order(x: int, y: int, n: nat)
    requires
        0 <= x < pow256(n),
        0 <= y < pow256(n),
        x < y,
    ensures
        lex_less(spec_be_bytes(x, n), spec_be_bytes(y, n)),
    decreases n,
{
    if n == 0 {
    } else {
        assert(x / 256 < pow256((n - 1) as nat) && y / 256 < pow256((n - 1) as nat) && x / 256
            <= y / 256) by (nonlinear_arith)
            requires
                0 <= x < pow256(n),
                0 <= y < pow256(n),
                x < y,
                pow256(n) == 256 * pow256((n - 1) as nat),
        ;
        lemma_be_len(x / 256, (n - 1) as nat);
        lemma_be_len(y / 256, (n - 1) as nat);
        lemma_lex_push(
            spec_be_bytes(x / 256, (n - 1) as nat),
            spec_be_bytes(y / 256, (n - 1) as nat),
            (x % 256) as u8,
            (y % 256) as u8,
        );
        if x / 256 == y / 256 {
            assert(x % 256 < y % 256) by (nonlinear_arith)
                requires
                    x < y,
                    x / 256 == y / 256,
                    0 <= x,
                    0 <= y,
            ;
        } else {
            lemma_be_order(x / 256, y / 256, (n - 1) as nat);
        }
    }
}

/// One LRU record of the embedded metadata tree: the entry's size, then its
/// access time, each as eight big-endian bytes.
pub fn lru_record_to_bytes(size: u64, atime: u64) -> (r: Vec<u8>)
    ensures
        r@ == spec_be_bytes(size as int, 8) + spec_be_bytes(atime as int, 8),
        r@.len() == 16,
{
    let mut r = u64_to_be_bytes(size);
    let mut tail = u64_to_be_bytes(atime);
    r.append(&mut tail);
    proof {
        assert(r@ =~= spec_be_bytes(size as int, 8) + spec_be_bytes(atime as int, 8));
    }
    r
}

fn sub_bytes(s: &Vec<u8>, start: usize, end: usize) -> (r: Vec<u8>)
    requires
        start <= end <= s@.len(),
    ensures
        r@ == s@.subrange(start as int, end as int),
{
    let mut r: Vec<u8> = Vec::new();
    let mut i: usize = start;
    proof {
        assert(r@ =~= s@.subrange(start as int, start as int));
    }
    while i < end
        invariant
            start <= i <= end <= s@.len(),
            r@ == s@.subrange(start as int, i as int),
        decreases end - i,
    {
        r.push(s[i]);
        i = i + 1;
        proof {
            assert(r@ =~= s@.subrange(start as int, i as int));
        }
    }
    r
}

/// Splits one sixteen-byte record back into size and access time.
pub fn lru_record_from_bytes(s: &Vec<u8>) -> (r: (u64, u64))
    requires
        s@.len() == 16,
    ensures
        r.0 == spec_from_be(s@.subrange(0, 8)),
        r.1 == spec_from_be(s@.subrange(8, 16)),
{
    let lo = sub_bytes(s, 0, 8);
    let hi = sub_bytes(s, 8, 16);
    (u64_from_be_bytes(&lo), u64_from_be_bytes(&hi))
}

/// Decoding undoes encoding for whole records: reading the two halves of an
/// encoded record back gives the size and access time that went in.
pub proof fn lemma_lru_record_round_trip(size: u64, atime: u64)
    ensures
        ({
            let r = spec_be_bytes(size as int, 8) + spec_be_bytes(atime as int, 8);
            spec_from_be(r.subrange(0, 8)) == size && spec_from_be(r.subrange(8, 16)) == atime
        }),
{
    lemma_pow256_values();
    lemma_be_len(size as int, 8);
    lemma_be_len(atime as int, 8);
    let r = spec_be_bytes(size as int, 8) + spec_be_bytes(atime as int, 8);
    assert(r.subrange(0, 8) =~= spec_be_bytes(size as int, 8));
    assert(r.subrange(8, 16) =~= spec_be_bytes(atime as int, 8));
    lemma_be_round_trip(size as int, 8);
    lemma_be_round_trip(atime as int, 8);
}

/// Eight-byte form of the order guarantee, as the index trees use it.
pub proof fn lemma_be_bytes_order_u64(a: u64, b: u64)
    requires
        a < b,
    ensures
        lex_less(spec_be_bytes(a as int, 8), spec_be_bytes(b as int, 8)),
{
    lemma_pow256_values();
    lemma_be_order(a as int, b as int, 8);
}

} // verus!
