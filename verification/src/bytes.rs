//! Little-endian integer codecs and lexicographic order on byte strings.
//!
//! The state store keys its maps by cryptographic identifiers held as byte
//! vectors; the serialization bridge fixes their on-disk order to the
//! lexicographic one defined here.

use vstd::prelude::*;
use vstd::arithmetic::div_mod::lemma_fundamental_div_mod;

verus! {

/// The little-endian byte string of width `n` for the value `v` (mod 256^n).
pub open spec fn le_bytes(v: nat, n: nat) -> Seq<u8>
    decreases n,
{
    if n == 0 {
        Seq::empty()
    } else {
        seq![(v % 256) as u8] + le_bytes(v / 256, (n - 1) as nat)
    }
}

/// The value of a little-endian byte string.
pub open spec fn from_le(s: Seq<u8>) -> nat
    decreases s.len(),
{
    if s.len() == 0 {
        0
    } else {
        (s[0] + 256 * from_le(s.drop_first())) as nat
    }
}

/// 256 raised to `n`.
pub open spec fn pow256(n: nat) -> nat
    decreases n,
{
    if n == 0 {
        1
    } else {
        256 * pow256((n - 1) as nat)
    }
}

pub proof fn lemma_le_bytes_len(v: nat, n: nat)
    ensures
        le_bytes(v, n).len() == n,
    decreases n,
{
    if n > 0 {
        lemma_le_bytes_len(v / 256, (n - 1) as nat);
    }
}

pub proof fn lemma_from_le_bound(s: Seq<u8>)
    ensures
        from_le(s) < pow256(s.len()),
    decreases s.len(),
{
    if s.len() > 0 {
        lemma_from_le_bound(s.drop_first());
        assert(from_le(s) == s[0] + 256 * from_le(s.drop_first()));
        assert(s[0] < 256);
        assert(256 * from_le(s.drop_first()) <= 256 * (pow256((s.len() - 1) as nat) - 1))
            by (nonlinear_arith)
            requires
                from_le(s.drop_first()) <= pow256((s.len() - 1) as nat) - 1,
        ;
    }
}

/// Decoding inverts encoding: the little-endian bytes of `v` read back as `v`.
pub proof fn lemma_le_round_trip(v: nat, n: nat)
    requires
        v < pow256(n),
    ensures
        from_le(le_bytes(v, n)) == v,
    decreases n,
{
    if n == 0 {
        assert(v == 0);
    } else {
        let rest = le_bytes(v / 256, (n - 1) as nat);
        lemma_le_bytes_len(v / 256, (n - 1) as nat);
        assert(v / 256 < pow256((n - 1) as nat)) by (nonlinear_arith)
            requires
                v < 256 * pow256((n - 1) as nat),
        ;
        lemma_le_round_trip(v / 256, (n - 1) as nat);
        let s = le_bytes(v, n);
        assert(s == seq![(v % 256) as u8] + rest);
        assert(s.drop_first() =~= rest);
        lemma_fundamental_div_mod(v as int, 256);
    }
}

/// Encoding inverts decoding on strings of the right width.
pub proof fn lemma_le_bytes_of_from_le(s: Seq<u8>, n: nat)
    requires
        s.len() == n,
    ensures
        le_bytes(from_le(s), n) == s,
    decreases n,
{
    if n > 0 {
        let v = from_le(s);
        assert(v == s[0] + 256 * from_le(s.drop_first()));
        assert(v % 256 == s[0] && v / 256 == from_le(s.drop_first())) by (nonlinear_arith)
            requires
                v == s[0] + 256 * from_le(s.drop_first()),
                0 <= s[0] < 256,
        ;
        lemma_le_bytes_of_from_le(s.drop_first(), (n - 1) as nat);
        assert(le_bytes(v, n) =~= s);
    }
}

/// The little-endian encoding of a 64-bit value, eight bytes wide.
pub open spec fn u64_le(v: u64) -> Seq<u8> {
    le_bytes(v as nat, 8)
}

/// Encodes `v` as eight little-endian bytes.
pub fn u64_to_le_bytes(v: u64) -> (r: Vec<u8>)
    ensures
        r@ == u64_le(v),
        r@.len() == 8,
{
    let mut out: Vec<u8> = Vec::new();
    let mut x: u64 = v;
    let mut k: usize = 0;
    while k < 8
        invariant
            k <= 8,
            out@.len() == k,
            le_bytes(v as nat, 8) =~= out@ + le_bytes(x as nat, (8 - k) as nat),
        decreases 8 - k,
    {
        proof {
            assert(le_bytes(x as nat, (8 - k) as nat) == seq![(x as nat % 256) as u8] + le_bytes(
                x as nat / 256,
                (8 - (k + 1)) as nat,
            ));
        }
        out.push((x % 256) as u8);
        x = x / 256;
        k = k + 1;
    }
    proof {
        lemma_le_bytes_len(v as nat, 8);
        assert(out@ =~= le_bytes(v as nat, 8));
    }
    out
}

/// Reads eight little-endian bytes at `start` back as a 64-bit value.
pub fn u64_from_le_bytes(b: &Vec<u8>, start: usize) -> (r: u64)
    requires
        start + 8 <= b@.len(),
    ensures
        r as nat == from_le(b@.subrange(start as int, start + 8)),
{
    let blen: usize = b.len();
    let mut acc: u64 = 0;
    let mut k: usize = 0;
    proof {
        assert(b@.subrange(start + 8, start + 8) =~= Seq::<u8>::empty());
    }
    while k < 8
        invariant
            k <= 8,
            blen == b@.len(),
            start + 8 <= b@.len(),
            acc as nat == from_le(b@.subrange(start + 8 - k, start + 8)),
            (acc as nat) < pow256(k as nat),
        decreases 8 - k,
    {
        let i: usize = start + 8 - k - 1;
        proof {
            let tail = b@.subrange(start + 8 - k, start + 8);
            let whole = b@.subrange(i as int, start + 8);
            assert(whole.drop_first() =~= tail);
            assert(whole[0] == b@[i as int]);
            lemma_from_le_bound(whole);
            lemma_le_bytes_len(0, 0);
            assert(pow256((k + 1) as nat) == 256 * pow256(k as nat));
            assert(acc as nat * 256 + b@[i as int] < 256 * pow256(k as nat)) by (nonlinear_arith)
                requires
                    (acc as nat) < pow256(k as nat),
                    b@[i as int] < 256,
            ;
            assert(pow256(8) == 0x1_0000_0000_0000_0000) by {
                reveal_with_fuel(pow256, 9);
            }
            assert(pow256(k as nat) <= pow256(7) ==> acc as nat * 256 + b@[i as int]
                < 0x1_0000_0000_0000_0000) by (nonlinear_arith)
                requires
                    (acc as nat) < pow256(k as nat),
                    b@[i as int] < 256,
                    pow256(8) == 0x1_0000_0000_0000_0000,
                    pow256(8) == 256 * pow256(7),
            ;
            lemma_pow256_monotone(k as nat, 7);
        }
        acc = acc * 256 + (b[i] as u64);
        k = k + 1;
    }
    proof {
        assert(b@.subrange(start as int, start + 8) =~= b@.subrange(start + 8 - 8, start + 8));
    }
    acc
}

pub proof fn lemma_pow256_monotone(a: nat, b: nat)
    requires
        a <= b,
    ensures
        pow256(a) <= pow256(b),
    decreases b,
{
    if a < b {
        lemma_pow256_monotone(a, (b - 1) as nat);
        assert(pow256(b) == 256 * pow256((b - 1) as nat));
        assert(256 * pow256((b - 1) as nat) >= pow256((b - 1) as nat)) by (nonlinear_arith)
            requires
                pow256((b - 1) as nat) >= 0,
        ;
    }
}

/// Strict lexicographic order on byte strings: a proper prefix comes first,
/// otherwise the first differing byte decides.
pub open spec fn lex_lt(a: Seq<u8>, b: Seq<u8>) -> bool
    decreases a.len(),
{
    if b.len() == 0 {
        false
    } else if a.len() == 0 {
        true
    } else {
        a[0] < b[0] || (a[0] == b[0] && lex_lt(a.drop_first(), b.drop_first()))
    }
}

/// Of `lex_lt(a, b)`, `a == b`, `lex_lt(b, a)`, exactly one holds.
pub proof fn lemma_lex_trichotomy(a: Seq<u8>, b: Seq<u8>)
    ensures
        lex_lt(a, b) || a == b || lex_lt(b, a),
        lex_lt(a, b) ==> a != b && !lex_lt(b, a),
        a == b ==> !lex_lt(a, b) && !lex_lt(b, a),
    decreases a.len(),
{
    if a.len() == 0 || b.len() == 0 {
        if a.len() == 0 && b.len() == 0 {
            assert(a =~= b);
        }
    } else {
        lemma_lex_trichotomy(a.drop_first(), b.drop_first());
        if a[0] == b[0] && a.drop_first() == b.drop_first() {
            assert(a =~= b) by {
                assert(a.len() == b.len());
                assert forall|j: int| 0 <= j < a.len() implies a[j] == b[j] by {
                    if j > 0 {
                        assert(a[j] == a.drop_first()[j - 1]);
                        assert(b[j] == b.drop_first()[j - 1]);
                    }
                }
            }
        }
        if a == b {
            assert(a[0] == b[0]);
            assert(a.drop_first() =~= b.drop_first());
        }
    }
}

pub proof fn lemma_lex_transitive(a: Seq<u8>, b: Seq<u8>, c: Seq<u8>)
    requires
        lex_lt(a, b),
        lex_lt(b, c),
    ensures
        lex_lt(a, c),
    decreases a.len(),
{
    if a.len() != 0 && b.len() != 0 && c.len() != 0 {
        if a[0] == b[0] && b[0] == c[0] {
            lemma_lex_transitive(a.drop_first(), b.drop_first(), c.drop_first());
        }
    }
}

/// Equal prefixes do not affect the order of the remainders.
pub proof fn lemma_lex_skip(a: Seq<u8>, b: Seq<u8>, i: int)
    requires
        0 <= i <= a.len(),
        i <= b.len(),
        a.subrange(0, i) == b.subrange(0, i),
    ensures
        lex_lt(a, b) <==> lex_lt(a.skip(i), b.skip(i)),
    decreases i,
{
    if i > 0 {
        assert(a[0] == b[0]) by {
            assert(a.subrange(0, i)[0] == b.subrange(0, i)[0]);
            assert(a.subrange(0, i)[0] == a[0]);
            assert(b.subrange(0, i)[0] == b[0]);
        }
        assert(a.len() > 0 && b.len() > 0);
        assert(a.drop_first().subrange(0, i - 1) =~= a.subrange(0, i).skip(1));
        assert(b.drop_first().subrange(0, i - 1) =~= b.subrange(0, i).skip(1));
        lemma_lex_skip(a.drop_first(), b.drop_first(), i - 1);
        assert(a.drop_first().skip(i - 1) =~= a.skip(i));
        assert(b.drop_first().skip(i - 1) =~= b.skip(i));
    } else {
        assert(a.skip(0) =~= a);
        assert(b.skip(0) =~= b);
    }
}

/// Copies a byte vector.
pub fn clone_bytes(v: &Vec<u8>) -> (r: Vec<u8>)
    ensures
        r@ == v@,
{
    let n: usize = v.len();
    let mut out: Vec<u8> = Vec::new();
    let mut i: usize = 0;
    while i < n
        invariant
            i <= n,
            n == v@.len(),
            out@ =~= v@.subrange(0, i as int),
        decreases n - i,
    {
        out.push(v[i]);
        proof {
            assert(out@ =~= v@.subrange(0, i + 1));
        }
        i = i + 1;
    }
    proof {
        assert(v@.subrange(0, n as int) =~= v@);
    }
    out
}

/// Copies the bytes of `v` from `start` up to `end`.
pub fn bytes_range(v: &Vec<u8>, start: usize, end: usize) -> (r: Vec<u8>)
    requires
        start <= end <= v@.len(),
    ensures
        r@ == v@.subrange(start as int, end as int),
{
    let mut out: Vec<u8> = Vec::new();
    let mut i: usize = start;
    while i < end
        invariant
            start <= i <= end <= v@.len(),
            out@ =~= v@.subrange(start as int, i as int),
        decreases end - i,
    {
        out.push(v[i]);
        proof {
            assert(out@ =~= v@.subrange(start as int, i + 1));
        }
        i = i + 1;
    }
    out
}

/// Compares two byte vectors for equality of contents.
pub fn bytes_eq(a: &Vec<u8>, b: &Vec<u8>) -> (r: bool)
    ensures
        r <==> a@ == b@,
{
    if a.len() != b.len() {
        return false;
    }
    let n: usize = a.len();
    let mut i: usize = 0;
    while i < n
        invariant
            i <= n,
            n == a@.len() == b@.len(),
            forall|j: int| 0 <= j < i ==> a@[j] == b@[j],
        decreases n - i,
    {
        if a[i] != b[i] {
            return false;
        }
        i = i + 1;
    }
    proof {
        assert(a@ =~= b@);
    }
    true
}

/// Decides the lexicographic order of two byte vectors.
pub fn bytes_lt(a: &Vec<u8>, b: &Vec<u8>) -> (r: bool)
    ensures
        r == lex_lt(a@, b@),
{
    let alen: usize = a.len();
    let blen: usize = b.len();
    let n: usize = if alen < blen {
        alen
    } else {
        blen
    };
    let mut i: usize = 0;
    while i < n
        invariant
            i <= n,
            n <= a@.len(),
            n <= b@.len(),
            n == alen || n == blen,
            alen == a@.len(),
            blen == b@.len(),
            a@.subrange(0, i as int) == b@.subrange(0, i as int),
        decreases n - i,
    {
        let x = a[i];
        let y = b[i];
        proof {
            lemma_lex_skip(a@, b@, i as int);
        }
        if x < y {
            proof {
                assert(a@.skip(i as int)[0] == x && b@.skip(i as int)[0] == y);
            }
            return true;
        }
        if x > y {
            proof {
                assert(a@.skip(i as int)[0] == x && b@.skip(i as int)[0] == y);
            }
            return false;
        }
        proof {
            assert(a@.subrange(0, i + 1) =~= a@.subrange(0, i as int).push(a@[i as int]));
            assert(b@.subrange(0, i + 1) =~= b@.subrange(0, i as int).push(b@[i as int]));
        }
        i = i + 1;
    }
    proof {
        lemma_lex_skip(a@, b@, n as int);
        if alen < blen {
            assert(a@.skip(n as int).len() == 0 && b@.skip(n as int).len() > 0);
        } else {
            assert(a@.skip(n as int).len() >= 0 && b@.skip(n as int).len() == 0);
        }
    }
    alen < blen
}

} // verus!
