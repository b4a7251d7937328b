use crate::ir::StateIndex;
use vstd::prelude::*;

verus! {

/// ASCII `0`.
pub const DIGIT_ZERO: u8 = 48;

/// ASCII `_`, which separates the parts of a key's text.
pub const UNDERSCORE: u8 = 95;

/// The digest that SHA-256 gives for `data`.
pub uninterp spec fn sha256_of(data: Seq<u8>) -> Seq<u8>;

/// Relies on fuel_crypto::Hasher::hash: the SHA-256 digest of `data`, which
/// depends on `data` alone.
#[verifier::external_body]
fn sha256(data: &[u8]) -> (r: [u8; 32])
    ensures
        r@ == sha256_of(data@),
{
    fuel_crypto::Hasher::hash(data).into()
}

/// The prefix that sets storage keys apart from every other hash of the
/// toolchain: the ASCII text `storage_` (115 116 111 114 97 103 101 95).
pub open spec fn domain_separator() -> Seq<u8> {
    seq![115u8, 116, 111, 114, 97, 103, 101, 95]
}

/// Relies on sway_utils::constants::STORAGE_DOMAIN_SEPARATOR, the text
/// `storage_` that begins every storage key's text.
#[verifier::external_body]
fn storage_domain_separator() -> (r: Vec<u8>)
    ensures
        r@ == domain_separator(),
{
    sway_utils::constants::STORAGE_DOMAIN_SEPARATOR.as_bytes().to_vec()
}

/// The ASCII decimal digits of `n`, without leading zeros.
pub open spec fn decimal(n: nat) -> Seq<u8>
    decreases n,
{
    if n < 10 {
        seq![(DIGIT_ZERO + n) as u8]
    } else {
        decimal(n / 10).push((DIGIT_ZERO + n % 10) as u8)
    }
}

/// The text hashed into the storage key of state index `ix` reached
/// through subfield offsets `path`: `storage_<ix>_<path[0]>_<path[1]>...`.
pub open spec fn key_preimage(ix: nat, path: Seq<usize>) -> Seq<u8>
    decreases path.len(),
{
    if path.len() == 0 {
        domain_separator() + decimal(ix)
    } else {
        key_preimage(ix, path.drop_last()) + seq![UNDERSCORE] + decimal(path.last() as nat)
    }
}

/// The storage key of state index `ix` reached through `path`.
pub open spec fn storage_key(ix: nat, path: Seq<usize>) -> Seq<u8> {
    sha256_of(key_preimage(ix, path))
}

/// The number that the ASCII decimal digits `s` spell.
pub open spec fn digits_value(s: Seq<u8>) -> int
    decreases s.len(),
{
    if s.len() == 0 {
        0
    } else {
        digits_value(s.drop_last()) * 10 + (s.last() - DIGIT_ZERO)
    }
}

/// The text `storage` before the last separator of a key with no path.
pub open spec fn domain_name() -> Seq<u8> {
    seq![115u8, 116, 111, 114, 97, 103, 101]
}

proof fn lemma_decimal(n: nat)
    ensures
        decimal(n).len() >= 1,
        forall|i: int| 0 <= i < decimal(n).len() ==> DIGIT_ZERO <= #[trigger] decimal(n)[i] <= DIGIT_ZERO + 9,
        digits_value(decimal(n)) == n,
    decreases n,
{
    let d = decimal(n);
    if n >= 10 {
        lemma_decimal(n / 10);
        assert(d.drop_last() =~= decimal(n / 10));
        assert(d.last() == DIGIT_ZERO + n % 10);
    } else {
        assert(d.drop_last() =~= Seq::<u8>::empty());
        assert(digits_value(d.drop_last()) == 0);
    }
}

proof fn lemma_decimal_injective(a: nat, b: nat)
    requires
        decimal(a) == decimal(b),
    ensures
        a == b,
{
    lemma_decimal(a);
    lemma_decimal(b);
}

/// Where `u1 _ a` and `u2 _ b` are one text, with `a` and `b` in decimal,
/// the parts agree: the last separator stands at the same place.
proof fn lemma_split_at_last_separator(u1: Seq<u8>, a: nat, u2: Seq<u8>, b: nat)
    requires
        u1 + seq![UNDERSCORE] + decimal(a) == u2 + seq![UNDERSCORE] + decimal(b),
    ensures
        u1 == u2,
        a == b,
{
    let x = u1 + seq![UNDERSCORE] + decimal(a);
    let da = decimal(a);
    let db = decimal(b);
    lemma_decimal(a);
    lemma_decimal(b);
    if da.len() < db.len() {
        let k = x.len() - da.len() - 1;
        assert(x[k] == UNDERSCORE);
        assert((u2 + seq![UNDERSCORE] + db)[k] == db[k - u2.len() - 1]);
    } else if db.len() < da.len() {
        let k = x.len() - db.len() - 1;
        assert((u2 + seq![UNDERSCORE] + db)[k] == UNDERSCORE);
        assert(x[k] == da[k - u1.len() - 1]);
    } else {
        assert(da =~= x.subrange(x.len() - da.len(), x.len() as int));
        assert(db =~= x.subrange(x.len() - da.len(), x.len() as int));
        lemma_decimal_injective(a, b);
        assert(u1 =~= x.subrange(0, u1.len() as int));
        assert(u2 =~= x.subrange(0, u1.len() as int));
    }
}

/// A key's text, split at its last separator.
proof fn lemma_key_preimage_split(ix: nat, path: Seq<usize>)
    ensures
        path.len() == 0 ==> key_preimage(ix, path) == domain_name() + seq![UNDERSCORE] + decimal(ix),
        key_preimage(ix, path).len() >= 9,
    decreases path.len(),
{
    lemma_decimal(ix);
    if path.len() == 0 {
        assert(domain_separator() =~= domain_name() + seq![UNDERSCORE]);
    } else {
        lemma_key_preimage_split(ix, path.drop_last());
    }
}

/// Distinct state indices or paths give distinct texts to hash, so their
/// storage keys differ unless SHA-256 collides; equal ones give equal keys.
pub proof fn lemma_key_preimage_injective(ix1: nat, path1: Seq<usize>, ix2: nat, path2: Seq<usize>)
    ensures
        key_preimage(ix1, path1) == key_preimage(ix2, path2) <==> (ix1 == ix2 && path1 == path2),
        (ix1 == ix2 && path1 == path2) ==> storage_key(ix1, path1) == storage_key(ix2, path2),
    decreases path1.len(),
{
    if key_preimage(ix1, path1) == key_preimage(ix2, path2) {
        lemma_key_preimage_split(ix1, path1);
        lemma_key_preimage_split(ix2, path2);
        if path1.len() == 0 && path2.len() == 0 {
            lemma_split_at_last_separator(domain_name(), ix1, domain_name(), ix2);
            assert(path1 =~= path2);
        } else if path1.len() == 0 {
            lemma_split_at_last_separator(domain_name(), ix1, key_preimage(ix2, path2.drop_last()), path2.last() as nat);
            lemma_key_preimage_split(ix2, path2.drop_last());
        } else if path2.len() == 0 {
            lemma_split_at_last_separator(key_preimage(ix1, path1.drop_last()), path1.last() as nat, domain_name(), ix2);
            lemma_key_preimage_split(ix1, path1.drop_last());
        } else {
            lemma_split_at_last_separator(
                key_preimage(ix1, path1.drop_last()),
                path1.last() as nat,
                key_preimage(ix2, path2.drop_last()),
                path2.last() as nat,
            );
            lemma_key_preimage_injective(ix1, path1.drop_last(), ix2, path2.drop_last());
            assert(path1 =~= path2.drop_last().push(path2.last()));
            assert(path2 =~= path2.drop_last().push(path2.last()));
        }
    }
}

/// Appends the decimal digits of `n` to `out`.
fn push_decimal(out: &mut Vec<u8>, n: usize)
    ensures
        final(out)@ == old(out)@ + decimal(n as nat),
    decreases n,
{
    if n >= 10 {
        push_decimal(out, n / 10);
    }
    out.push(DIGIT_ZERO + (n % 10) as u8);
    proof {
        assert(final(out)@ =~= old(out)@ + decimal(n as nat));
    }
}

/// The text that `get_storage_key` hashes.
pub fn storage_key_preimage(ix: &StateIndex, indices: &[usize]) -> (r: Vec<u8>)
    ensures
        r@ == key_preimage(ix.index as nat, indices@),
{
    let mut text = storage_domain_separator();
    push_decimal(&mut text, ix.to_usize());
    let mut i: usize = 0;
    proof {
        assert(indices@.subrange(0, 0).len() == 0);
    }
    while i < indices.len()
        invariant
            i <= indices@.len(),
            text@ == key_preimage(ix.index as nat, indices@.subrange(0, i as int)),
        decreases indices.len() - i,
    {
        text.push(UNDERSCORE);
        push_decimal(&mut text, indices[i]);
        proof {
            let p = indices@.subrange(0, i as int + 1);
            assert(p.drop_last() =~= indices@.subrange(0, i as int));
            assert(text@ =~= key_preimage(ix.index as nat, p));
        }
        i = i + 1;
    }
    proof {
        assert(indices@.subrange(0, i as int) =~= indices@);
    }
    text
}

/// The storage key of a state index and a list of subfield offsets: the
/// SHA-256 digest of `storage_<ix>_<idx1>_<idx2>...`.
pub fn get_storage_key(ix: &StateIndex, indices: &[usize]) -> (r: [u8; 32])
    ensures
        r@ == storage_key(ix.index as nat, indices@),
{
    let text = storage_key_preimage(ix, indices);
    sha256(text.as_slice())
}

} // verus!
