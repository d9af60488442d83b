//! The mathematics of big-endian two's-complement byte sequences.
use vstd::prelude::*;

verus! {

/// `256` raised to the power `n`.
pub open spec fn pow256(n: nat) -> int
    decreases n,
{
    if n == 0 {
        1
    } else {
        256 * pow256((n - 1) as nat)
    }
}

/// The bytes read as an unsigned big-endian number.
pub open spec fn unsigned_be(s: Seq<u8>) -> int
    decreases s.len(),
{
    if s.len() == 0 {
        0
    } else {
        s[0] as int * pow256((s.len() - 1) as nat) + unsigned_be(s.skip(1))
    }
}

/// The bytes read as a big-endian two's-complement signed number; the empty
/// sequence reads as zero.
pub open spec fn signed_be(s: Seq<u8>) -> int {
    if s.len() > 0 && s[0] >= 0x80 {
        unsigned_be(s) - pow256(s.len())
    } else {
        unsigned_be(s)
    }
}

/// `v` can be written in `n` two's-complement bytes: `n >= 1` and
/// `-2^(8n-1) <= v < 2^(8n-1)`.
pub open spec fn fits(v: int, n: nat) -> bool {
    &&& n >= 1
    &&& -128 * pow256((n - 1) as nat) <= v
    &&& v < 128 * pow256((n - 1) as nat)
}

/// `n` is the fewest bytes that hold `v` in two's complement.
pub open spec fn is_needed_len(v: int, n: nat) -> bool {
    fits(v, n) && (n == 1 || !fits(v, (n - 1) as nat))
}

/// A shortest encoding: at least one byte, and no leading `0x00` or `0xFF`
/// that merely repeats the sign of the byte after it.
pub open spec fn is_minimal(s: Seq<u8>) -> bool {
    &&& s.len() >= 1
    &&& s.len() >= 2 ==> !(s[0] == 0x00 && s[1] < 0x80)
    &&& s.len() >= 2 ==> !(s[0] == 0xFF && s[1] >= 0x80)
}

/// The byte that fills the front of a sign-extended encoding of `v`.
pub open spec fn sign_fill(v: int) -> u8 {
    if v < 0 {
        0xFF
    } else {
        0x00
    }
}

pub proof fn lemma_pow256_pos(n: nat)
    ensures
        pow256(n) >= 1,
    decreases n,
{
    if n > 0 {
        lemma_pow256_pos((n - 1) as nat);
    }
}

pub proof fn lemma_pow256_mono(a: nat, b: nat)
    requires
        a <= b,
    ensures
        pow256(a) <= pow256(b),
    decreases b,
{
    if a < b {
        lemma_pow256_mono(a, (b - 1) as nat);
        lemma_pow256_pos((b - 1) as nat);
    }
}

/// An unsigned reading of `n` bytes lies in `[0, 256^n)`.
pub proof fn lemma_unsigned_be_bound(s: Seq<u8>)
    ensures
        0 <= unsigned_be(s) < pow256(s.len()),
    decreases s.len(),
{
    if s.len() > 0 {
        let p = pow256((s.len() - 1) as nat);
        lemma_unsigned_be_bound(s.skip(1));
        lemma_pow256_pos((s.len() - 1) as nat);
        let d = s[0] as int;
        assert(0 <= d * p <= 255 * p) by (nonlinear_arith)
            requires
                0 <= d <= 255,
                p >= 1,
        ;
    }
}

/// Splits off the leading byte: `unsigned_be(s) == s[0] * 256^(n-1) + unsigned_be(rest)`,
/// with the rest below `256^(n-1)`.
proof fn lemma_unsigned_be_head(s: Seq<u8>)
    requires
        s.len() >= 1,
    ensures
        unsigned_be(s) == s[0] as int * pow256((s.len() - 1) as nat) + unsigned_be(s.skip(1)),
        0 <= unsigned_be(s.skip(1)) < pow256((s.len() - 1) as nat),
        pow256(s.len()) == 256 * pow256((s.len() - 1) as nat),
{
    lemma_unsigned_be_bound(s.skip(1));
}

/// A two's-complement reading of `n >= 1` bytes fits in `n` bytes.
pub proof fn lemma_signed_be_fits(s: Seq<u8>)
    requires
        s.len() >= 1,
    ensures
        fits(signed_be(s), s.len()),
{
    lemma_unsigned_be_head(s);
    lemma_pow256_pos((s.len() - 1) as nat);
    let p = pow256((s.len() - 1) as nat);
    let d = s[0] as int;
    let r = unsigned_be(s.skip(1));
    if d >= 0x80 {
        assert(-128 * p <= d * p + r - 256 * p < 128 * p) by (nonlinear_arith)
            requires
                0x80 <= d <= 255,
                0 <= r < p,
        ;
    } else {
        assert(-128 * p <= d * p + r < 128 * p) by (nonlinear_arith)
            requires
                0 <= d < 0x80,
                0 <= r < p,
        ;
    }
}

/// A value that fits in `a` bytes fits in any `b >= a` bytes.
pub proof fn lemma_fits_mono(v: int, a: nat, b: nat)
    requires
        fits(v, a),
        a <= b,
    ensures
        fits(v, b),
{
    lemma_pow256_mono((a - 1) as nat, (b - 1) as nat);
}

/// A minimal encoding does not fit in one byte less than it has.
pub proof fn lemma_minimal_tight(s: Seq<u8>)
    requires
        is_minimal(s),
        s.len() >= 2,
    ensures
        !fits(signed_be(s), (s.len() - 1) as nat),
{
    let t = s.skip(1);
    lemma_unsigned_be_head(s);
    lemma_unsigned_be_head(t);
    let p = pow256((s.len() - 2) as nat);
    let q = pow256((s.len() - 1) as nat);
    lemma_pow256_pos((s.len() - 2) as nat);
    assert(q == 256 * p);
    let d0 = s[0] as int;
    let d1 = t[0] as int;
    let r = unsigned_be(t.skip(1));
    assert(unsigned_be(s) == d0 * q + d1 * p + r);
    if d0 >= 0x80 {
        if d0 == 0xFF {
            assert(d0 * q + d1 * p + r - 256 * q < -128 * p) by (nonlinear_arith)
                requires
                    d0 == 0xFF,
                    0 <= d1 < 0x80,
                    0 <= r < p,
                    q == 256 * p,
            ;
        } else {
            assert(d0 * q + d1 * p + r - 256 * q < -128 * p) by (nonlinear_arith)
                requires
                    0x80 <= d0 <= 0xFE,
                    0 <= d1 <= 255,
                    0 <= r < p,
                    q == 256 * p,
            ;
        }
    } else {
        assert(d0 * q + d1 * p + r >= 128 * p) by (nonlinear_arith)
            requires
                0 <= d0 < 0x80,
                0 <= d1 <= 255,
                d0 == 0 ==> d1 >= 0x80,
                0 <= r < p,
                q == 256 * p,
                p >= 1,
        ;
    }
}

/// The length of a minimal encoding is the fewest bytes that hold its value.
pub proof fn lemma_minimal_needed_len(s: Seq<u8>)
    requires
        is_minimal(s),
    ensures
        is_needed_len(signed_be(s), s.len()),
{
    lemma_signed_be_fits(s);
    if s.len() >= 2 {
        lemma_minimal_tight(s);
    }
}

/// The fewest bytes that hold a value are determined by the value.
pub proof fn lemma_needed_len_unique(v: int, a: nat, b: nat)
    requires
        is_needed_len(v, a),
        is_needed_len(v, b),
    ensures
        a == b,
{
    if a < b {
        lemma_fits_mono(v, a, (b - 1) as nat);
    } else if b < a {
        lemma_fits_mono(v, b, (a - 1) as nat);
    }
}

/// A non-empty encoding reads as negative exactly when its leading bit is set.
pub proof fn lemma_sign_of_head(s: Seq<u8>)
    requires
        s.len() >= 1,
    ensures
        signed_be(s) < 0 <==> s[0] >= 0x80,
{
    lemma_unsigned_be_bound(s);
    lemma_signed_be_fits(s);
    lemma_unsigned_be_head(s);
    lemma_pow256_pos((s.len() - 1) as nat);
    let p = pow256((s.len() - 1) as nat);
    let d = s[0] as int;
    let r = unsigned_be(s.skip(1));
    if d >= 0x80 {
        assert(d * p + r - 256 * p < 0) by (nonlinear_arith)
            requires
                0x80 <= d <= 255,
                0 <= r < p,
        ;
    }
}

/// `k` copies of the byte `f` followed by `s`.
pub open spec fn extended(f: u8, k: nat, s: Seq<u8>) -> Seq<u8> {
    Seq::new(k, |i: int| f) + s
}

/// Putting copies of the sign byte in front of a non-empty encoding keeps
/// its value.
pub proof fn lemma_sign_extend(s: Seq<u8>, k: nat)
    requires
        s.len() >= 1,
    ensures
        signed_be(extended(sign_fill(signed_be(s)), k, s)) == signed_be(s),
    decreases k,
{
    let f = sign_fill(signed_be(s));
    lemma_sign_of_head(s);
    if k > 0 {
        let rest = extended(f, (k - 1) as nat, s);
        let u = extended(f, k, s);
        lemma_sign_extend(s, (k - 1) as nat);
        assert(u.skip(1) =~= rest);
        assert(u[0] == f);
        assert(rest[0] >= 0x80 <==> f == 0xFF);
        lemma_unsigned_be_head(u);
        lemma_unsigned_be_head(rest);
        let p = pow256(rest.len());
        assert(unsigned_be(u) == f as int * p + unsigned_be(rest));
        assert(pow256(u.len()) == 256 * p);
    }
}

/// An unsigned reading determines the bytes of a given length.
proof fn lemma_unsigned_be_injective(s: Seq<u8>, t: Seq<u8>)
    requires
        s.len() == t.len(),
        unsigned_be(s) == unsigned_be(t),
    ensures
        s == t,
    decreases s.len(),
{
    if s.len() > 0 {
        lemma_unsigned_be_head(s);
        lemma_unsigned_be_head(t);
        let p = pow256((s.len() - 1) as nat);
        let a = s[0] as int;
        let b = t[0] as int;
        let x = unsigned_be(s.skip(1));
        let y = unsigned_be(t.skip(1));
        assert(a == b) by (nonlinear_arith)
            requires
                a * p + x == b * p + y,
                0 <= x < p,
                0 <= y < p,
        {
            if a < b {
                assert(a * p + p <= b * p) by (nonlinear_arith)
                    requires
                        a < b,
                        p >= 0,
                ;
            } else if b < a {
                assert(b * p + p <= a * p) by (nonlinear_arith)
                    requires
                        b < a,
                        p >= 0,
                ;
            }
        }
        lemma_unsigned_be_injective(s.skip(1), t.skip(1));
        assert(s =~= seq![s[0]] + s.skip(1));
        assert(t =~= seq![t[0]] + t.skip(1));
    } else {
        assert(s =~= t);
    }
}

/// A two's-complement reading determines the bytes of a given length.
pub proof fn lemma_signed_be_injective(s: Seq<u8>, t: Seq<u8>)
    requires
        s.len() == t.len(),
        signed_be(s) == signed_be(t),
    ensures
        s == t,
{
    if s.len() > 0 {
        lemma_sign_of_head(s);
        lemma_sign_of_head(t);
    }
    lemma_unsigned_be_injective(s, t);
}

/// Two minimal encodings of one value are the same bytes.
pub proof fn lemma_minimal_unique(s: Seq<u8>, t: Seq<u8>)
    requires
        is_minimal(s),
        is_minimal(t),
        signed_be(s) == signed_be(t),
    ensures
        s == t,
{
    lemma_minimal_needed_len(s);
    lemma_minimal_needed_len(t);
    lemma_needed_len_unique(signed_be(s), s.len(), t.len());
    lemma_signed_be_injective(s, t);
}

} // verus!
