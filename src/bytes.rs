use vstd::arithmetic::div_mod::lemma_fundamental_div_mod_converse;
use vstd::prelude::*;

verus! {

/// 256 to the power `n`: the number of distinct values of `n` bytes.
pub open spec fn pow256(n: nat) -> nat
    decreases n,
{
    if n == 0 { 1 } else { 256 * pow256((n - 1) as nat) }
}

/// The unsigned integer whose big-endian encoding is `s`.
pub open spec fn be_value(s: Seq<u8>) -> nat
    decreases s.len(),
{
    if s.len() == 0 {
        0
    } else {
        (s[0] * pow256((s.len() - 1) as nat) + be_value(s.subrange(1, s.len() as int))) as nat
    }
}

/// The big-endian encoding of `n` in `len` bytes, keeping its `len`
/// low-order bytes.
pub open spec fn be_bytes(n: nat, len: nat) -> Seq<u8> {
    Seq::new(len, |i: int| ((n / pow256((len - 1 - i) as nat)) % 256) as u8)
}

pub proof fn lemma_pow256_positive(n: nat)
    ensures
        pow256(n) > 0,
    decreases n,
{
    if n > 0 {
        lemma_pow256_positive((n - 1) as nat);
    }
}

/// Splits off the first byte of a suffix of `s`.
pub proof fn lemma_be_value_suffix(s: Seq<u8>, i: int)
    requires
        0 <= i < s.len(),
    ensures
        be_value(s.subrange(i, s.len() as int)) == s[i] * pow256((s.len() - 1 - i) as nat)
            + be_value(s.subrange(i + 1, s.len() as int)),
{
    let t = s.subrange(i, s.len() as int);
    assert(t.subrange(1, t.len() as int) =~= s.subrange(i + 1, s.len() as int));
}

/// `n` bytes hold values below `pow256(n)`.
pub proof fn lemma_be_value_bound(s: Seq<u8>)
    ensures
        be_value(s) < pow256(s.len()),
    decreases s.len(),
{
    if s.len() > 0 {
        let rest = s.subrange(1, s.len() as int);
        lemma_be_value_bound(rest);
        let p = pow256(rest.len());
        let b = s[0] as int;
        let v = be_value(rest) as int;
        assert(b * p + v < 256 * p) by (nonlinear_arith)
            requires 0 <= b <= 255, 0 <= v < p;
    }
}

/// Two byte strings of one length with the same big-endian value are equal.
pub proof fn lemma_be_value_injective(s1: Seq<u8>, s2: Seq<u8>)
    requires
        s1.len() == s2.len(),
        be_value(s1) == be_value(s2),
    ensures
        s1 == s2,
    decreases s1.len(),
{
    if s1.len() > 0 {
        let n = s1.len() as int;
        let r1 = s1.subrange(1, n);
        let r2 = s2.subrange(1, n);
        let p = pow256((n - 1) as nat) as int;
        lemma_be_value_bound(r1);
        lemma_be_value_bound(r2);
        let v = be_value(s1) as int;
        lemma_fundamental_div_mod_converse(v, p, s1[0] as int, be_value(r1) as int);
        lemma_fundamental_div_mod_converse(v, p, s2[0] as int, be_value(r2) as int);
        lemma_be_value_injective(r1, r2);
        assert(s1 =~= s2) by {
            assert forall|i: int| 0 <= i < n implies s1[i] == s2[i] by {
                if i > 0 {
                    assert(s1[i] == r1[i - 1]);
                    assert(s2[i] == r2[i - 1]);
                }
            }
        }
    } else {
        assert(s1 =~= s2);
    }
}

/// Adds `y` to the 256-bit big-endian number `x`, wrapping around at 2^256.
pub fn add_to_b256(x: [u8; 32], y: u64) -> (r: [u8; 32])
    ensures
        be_value(r@) == (be_value(x@) + y) % (pow256(32) as int),
{
    let mut out: [u8; 32] = [0u8; 32];
    let mut carry: u128 = y as u128;
    let mut i: usize = 32;
    proof {
        assert(x@.subrange(32, 32).len() == 0);
        assert(out@.subrange(32, 32).len() == 0);
        assert(be_value(x@.subrange(32, 32)) == 0);
        assert(be_value(out@.subrange(32, 32)) == 0);
        let p0 = pow256(0);
        assert(p0 == 1);
        assert(carry * p0 == carry) by (nonlinear_arith)
            requires p0 == 1;
    }
    while i > 0
        invariant
            i <= 32,
            carry <= u64::MAX,
            be_value(x@.subrange(i as int, 32)) + y == be_value(out@.subrange(i as int, 32))
                + carry * pow256((32 - i) as nat),
        decreases i,
    {
        i = i - 1;
        let ghost old_out = out@;
        let s: u128 = x[i] as u128 + carry;
        out[i] = (s % 256) as u8;
        carry = s / 256;
        proof {
            assert(out@.subrange(i + 1, 32) =~= old_out.subrange(i + 1, 32));
            lemma_be_value_suffix(x@, i as int);
            lemma_be_value_suffix(out@, i as int);
            let p = pow256((31 - i) as nat);
            assert(pow256((32 - i) as nat) == 256 * p);
            let c0 = s - x[i as int];
            let lo = be_value(old_out.subrange(i + 1, 32)) as int;
            let lx = be_value(x@.subrange(i + 1, 32)) as int;
            let xi = x[i as int] as int;
            let oi = out[i as int] as int;
            assert(lx + y == lo + c0 * p);
            assert(s == carry * 256 + oi);
            assert(xi * p + lx + y == oi * p + lo + carry * (256 * p)) by (nonlinear_arith)
                requires
                    lx + y == lo + c0 * p,
                    s == carry * 256 + oi,
                    s == xi + c0;
        }
    }
    proof {
        assert(x@.subrange(0, 32) =~= x@);
        assert(out@.subrange(0, 32) =~= out@);
        lemma_be_value_bound(out@);
        lemma_pow256_positive(32);
        lemma_fundamental_div_mod_converse(
            be_value(x@) + y,
            pow256(32) as int,
            carry as int,
            be_value(out@) as int,
        );
    }
    out
}

} // verus!
