use crate::bytes::{be_bytes, lemma_pow256_positive, pow256};
use vstd::arithmetic::div_mod::lemma_div_denominator;
use crate::ir::{Constant, ConstantValue, InByte8Padding, Type, TypeContent};
use crate::type_size::{size_in_words, spec_size_in_words};
use vstd::prelude::*;

verus! {

/// `n` zero bytes.
pub open spec fn zeros(n: nat) -> Seq<u8> {
    Seq::new(n, |i: int| 0u8)
}

/// A one-byte value widened to a word on the side that `padding` gives.
pub open spec fn small_word(v: u8, padding: InByte8Padding) -> Seq<u8> {
    match padding {
        InByte8Padding::Right => seq![v] + zeros(7),
        InByte8Padding::Left => zeros(7) + seq![v],
    }
}

/// The number of zero bytes that bring `len` up to a whole word.
pub open spec fn word_padding(len: nat) -> nat {
    if len % 8 == 0 { 0 } else { (8 - len % 8) as nat }
}

/// The words of the first `n` fields of a struct, each field padded on the
/// right, laid end to end.
pub open spec fn fields_words(cs: Seq<Constant>, tys: Seq<Type>, n: nat) -> Seq<u8>
    decreases cs, n,
{
    if n == 0 || n > cs.len() || n > tys.len() {
        seq![]
    } else {
        fields_words(cs, tys, (n - 1) as nat) + spec_words(cs[n - 1], tys[n - 1], InByte8Padding::Right)
    }
}

/// The number of fields that a struct constant and its type have in common.
pub open spec fn common_len(cs: Seq<Constant>, tys: Seq<Type>) -> nat {
    if cs.len() <= tys.len() { cs.len() } else { tys.len() }
}

/// The 8-byte words that encode `c` as a value of `ty`, laid end to end.
///
/// A union encodes only its active arm, with `Left` padding, and puts zero
/// words in front of it until the union's own word count is reached. Struct fields
/// are always encoded with `Right` padding. A constant whose kind does not
/// fit `ty` gives no words.
pub open spec fn spec_words(c: Constant, ty: Type, padding: InByte8Padding) -> Seq<u8>
    decreases c, (if ty.content is Union { 1int } else { 0int }),
{
    if c.value is Undef {
        seq![]
    } else if ty.content is Union {
        if c.ty.content is Union {
            seq![]
        } else {
            let arm = spec_words(c, c.ty, InByte8Padding::Left);
            zeros((8 * spec_size_in_words(ty) - arm.len()) as nat) + arm
        }
    } else {
        match c.value {
            ConstantValue::Unit => if ty.content is Unit { zeros(8) } else { seq![] },
            ConstantValue::Bool(b) => if ty.content is Bool {
                small_word(if b { 1u8 } else { 0u8 }, padding)
            } else {
                seq![]
            },
            ConstantValue::Uint(n) => if ty.content == TypeContent::Uint(8) {
                small_word((n % 256) as u8, padding)
            } else if ty.content is Uint {
                be_bytes(n as nat, 8)
            } else {
                seq![]
            },
            ConstantValue::U256(b) => if ty.content == TypeContent::Uint(256) { b@ } else { seq![] },
            ConstantValue::B256(b) => if ty.content is B256 { b@ } else { seq![] },
            ConstantValue::String(s) => if ty.content is StringArray {
                s@ + zeros(word_padding(s@.len()))
            } else {
                seq![]
            },
            ConstantValue::Struct(fields) => if ty.content is Struct {
                fields_words(fields@, ty.content->Struct_0@, common_len(fields@, ty.content->Struct_0@))
            } else {
                seq![]
            },
            _ => seq![],
        }
    }
}

/// Whether the first `n` fields of a struct can be encoded.
pub open spec fn fields_encodable(cs: Seq<Constant>, tys: Seq<Type>, n: nat) -> bool
    decreases cs, n,
{
    if n == 0 || n > cs.len() || n > tys.len() {
        true
    } else {
        fields_encodable(cs, tys, (n - 1) as nat) && encodable(cs[n - 1], tys[n - 1])
    }
}

/// Whether none of the first `n` fields of a struct reaches an array.
pub open spec fn fields_array_free(cs: Seq<Constant>, tys: Seq<Type>, n: nat) -> bool
    decreases cs, n,
{
    if n == 0 || n > cs.len() || n > tys.len() {
        true
    } else {
        fields_array_free(cs, tys, (n - 1) as nat) && array_free(cs[n - 1], tys[n - 1])
    }
}

/// Whether encoding `c` as a value of `ty` never reaches an array constant
/// of an array type, which storage does not hold.
pub open spec fn array_free(c: Constant, ty: Type) -> bool
    decreases c, (if ty.content is Union { 1int } else { 0int }),
{
    if c.value is Undef {
        true
    } else if ty.content is Union {
        c.ty.content is Union || array_free(c, c.ty)
    } else {
        match c.value {
            ConstantValue::Array(_) => ty.content !is Array,
            ConstantValue::Struct(fields) => ty.content is Struct ==> fields_array_free(
                fields@,
                ty.content->Struct_0@,
                common_len(fields@, ty.content->Struct_0@),
            ),
            _ => true,
        }
    }
}

/// Whether `c` can be encoded as a value of `ty`. Encoding fails on an array,
/// which storage does not hold, and on a union whose active arm is itself a
/// union, has a type of more words than the union, or encodes to more words
/// than the union holds.
pub open spec fn encodable(c: Constant, ty: Type) -> bool
    decreases c, (if ty.content is Union { 1int } else { 0int }),
{
    if c.value is Undef {
        true
    } else if ty.content is Union {
        &&& c.ty.content !is Union
        &&& encodable(c, c.ty)
        &&& spec_size_in_words(c.ty) <= spec_size_in_words(ty)
        &&& spec_words(c, c.ty, InByte8Padding::Left).len() <= 8 * spec_size_in_words(ty)
    } else {
        match c.value {
            ConstantValue::Array(_) => ty.content !is Array,
            ConstantValue::Struct(fields) => ty.content is Struct ==> fields_encodable(
                fields@,
                ty.content->Struct_0@,
                common_len(fields@, ty.content->Struct_0@),
            ),
            _ => true,
        }
    }
}

proof fn lemma_fields_encodable(cs: Seq<Constant>, tys: Seq<Type>, n: nat, i: int)
    requires
        fields_encodable(cs, tys, n),
        0 <= i < n <= cs.len(),
        n <= tys.len(),
    ensures
        encodable(cs[i], tys[i]),
    decreases n,
{
    if i < n - 1 {
        lemma_fields_encodable(cs, tys, (n - 1) as nat, i);
    }
}

/// Appends `src` to `out`.
pub(crate) fn push_all(out: &mut Vec<u8>, src: &[u8])
    ensures
        final(out)@ == old(out)@ + src@,
{
    let mut i: usize = 0;
    while i < src.len()
        invariant
            i <= src@.len(),
            out@ == old(out)@ + src@.subrange(0, i as int),
        decreases src.len() - i,
    {
        out.push(src[i]);
        i = i + 1;
        proof {
            assert(out@ =~= old(out)@ + src@.subrange(0, i as int));
        }
    }
    proof {
        assert(src@.subrange(0, i as int) =~= src@);
    }
}

/// Appends `n` zero words to `out`.
fn push_zero_words(out: &mut Vec<u8>, n: u64)
    ensures
        final(out)@ == old(out)@ + zeros((n * 8) as nat),
{
    let mut i: u64 = 0;
    while i < n
        invariant
            i <= n,
            out@ == old(out)@ + zeros((i * 8) as nat),
        decreases n - i,
    {
        push_all(out, [0u8; 8].as_slice());
        i = i + 1;
        proof {
            assert(out@ =~= old(out)@ + zeros((i * 8) as nat));
        }
    }
}

/// Appends `n` zero bytes to `out`.
fn push_zeros(out: &mut Vec<u8>, n: u128)
    ensures
        final(out)@ == old(out)@ + zeros(n as nat),
{
    let mut i: u128 = 0;
    while i < n
        invariant
            i <= n,
            out@ == old(out)@ + zeros(i as nat),
        decreases n - i,
    {
        out.push(0);
        i = i + 1;
        proof {
            assert(out@ =~= old(out)@ + zeros(i as nat));
        }
    }
}

/// Appends the word that holds the one-byte value `v` with `padding`.
fn push_small_word(out: &mut Vec<u8>, v: u8, padding: InByte8Padding)
    ensures
        final(out)@ == old(out)@ + small_word(v, padding),
{
    let mut w: [u8; 8] = [0u8; 8];
    match padding {
        InByte8Padding::Right => w[0] = v,
        InByte8Padding::Left => w[7] = v,
    }
    proof {
        assert(w@ =~= small_word(v, padding));
    }
    push_all(out, w.as_slice());
}

/// The eight big-endian bytes of `n`.
pub(crate) fn be_word(n: u64) -> (r: [u8; 8])
    ensures
        r@ == be_bytes(n as nat, 8),
{
    let mut w: [u8; 8] = [0u8; 8];
    let mut x: u64 = n;
    let mut j: usize = 0;
    proof {
        assert(pow256(0) == 1);
        assert(n as nat / 1 == n);
    }
    while j < 8
        invariant
            j <= 8,
            x == n as nat / pow256(j as nat),
            forall|k: int| 8 - j <= k < 8 ==> w[k] == ((n as nat / pow256((7 - k) as nat)) % 256) as u8,
        decreases 8 - j,
    {
        proof {
            lemma_pow256_positive(j as nat);
            lemma_div_denominator(n as int, pow256(j as nat) as int, 256);
            assert(pow256((j + 1) as nat) == pow256(j as nat) * 256);
        }
        w[7 - j] = (x % 256) as u8;
        x = x / 256;
        j = j + 1;
    }
    proof {
        assert(w@ =~= be_bytes(n as nat, 8));
    }
    w
}

/// Encodes `c` as a value of `ty` into 8-byte words, laid end to end, with
/// `padding` for values shorter than a word.
pub fn serialize_to_words(c: &Constant, ty: &Type, padding: InByte8Padding) -> (r: Vec<u8>)
    requires
        encodable(*c, *ty),
    ensures
        r@ == spec_words(*c, *ty, padding),
    decreases *c, (if ty.content is Union { 1int } else { 0int }),
{
    let mut out: Vec<u8> = Vec::new();
    if let ConstantValue::Undef = c.value {
        return out;
    }
    if let TypeContent::Union(_) = &ty.content {
        let words = size_in_words(ty);
        let arm = serialize_to_words(c, &c.ty, InByte8Padding::Left);
        push_zeros(&mut out, 8 * (words as u128) - arm.len() as u128);
        push_all(&mut out, arm.as_slice());
        return out;
    }
    match &c.value {
        ConstantValue::Unit => {
            if let TypeContent::Unit = &ty.content {
                push_zero_words(&mut out, 1);
            }
        },
        ConstantValue::Bool(b) => {
            if let TypeContent::Bool = &ty.content {
                push_small_word(&mut out, if *b { 1 } else { 0 }, padding);
            }
        },
        ConstantValue::Uint(n) => {
            if let TypeContent::Uint(bits) = &ty.content {
                if *bits == 8 {
                    push_small_word(&mut out, (*n % 256) as u8, padding);
                } else {
                    let w = be_word(*n);
                    push_all(&mut out, w.as_slice());
                }
            }
        },
        ConstantValue::U256(b) => {
            if let TypeContent::Uint(bits) = &ty.content {
                if *bits == 256 {
                    push_all(&mut out, b.as_slice());
                }
            }
        },
        ConstantValue::B256(b) => {
            if let TypeContent::B256 = &ty.content {
                push_all(&mut out, b.as_slice());
            }
        },
        ConstantValue::String(s) => {
            if let TypeContent::StringArray(_) = &ty.content {
                push_all(&mut out, s.as_slice());
                let rem = s.len() % 8;
                if rem != 0 {
                    let mut k: usize = rem;
                    while k < 8
                        invariant
                            rem <= k <= 8,
                            out@ == s@ + zeros((k - rem) as nat),
                        decreases 8 - k,
                    {
                        out.push(0);
                        k = k + 1;
                        proof {
                            assert(out@ =~= s@ + zeros((k - rem) as nat));
                        }
                    }
                } else {
                    proof {
                        assert(out@ =~= s@ + zeros(0));
                    }
                }
            }
        },
        ConstantValue::Struct(fields) => {
            if let TypeContent::Struct(tys) = &ty.content {
                let n: usize = if fields.len() <= tys.len() { fields.len() } else { tys.len() };
                let mut i: usize = 0;
                while i < n
                    invariant
                        n == common_len(fields@, tys@),
                        n <= fields@.len(),
                        n <= tys@.len(),
                        i <= n,
                        fields_encodable(fields@, tys@, n as nat),
                        out@ == fields_words(fields@, tys@, i as nat),
                        c.value == ConstantValue::Struct(*fields),
                        ty.content == TypeContent::Struct(*tys),
                        decreases_to!(*c => *fields),
                    decreases n - i,
                {
                    proof {
                        lemma_fields_encodable(fields@, tys@, n as nat, i as int);
                    }
                    let field = serialize_to_words(&fields[i], &tys[i], InByte8Padding::Right);
                    push_all(&mut out, field.as_slice());
                    i = i + 1;
                }
            }
        },
        _ => {},
    }
    out
}

/// Whether `c` can be encoded as a value of `ty`, as `encodable` states it.
pub fn is_encodable(c: &Constant, ty: &Type) -> (r: bool)
    ensures
        r == encodable(*c, *ty),
    decreases *c, (if ty.content is Union { 1int } else { 0int }),
{
    if let ConstantValue::Undef = c.value {
        return true;
    }
    if let TypeContent::Union(_) = &ty.content {
        if let TypeContent::Union(_) = c.ty.content {
            return false;
        }
        let words = size_in_words(ty);
        if !is_encodable(c, &c.ty) || size_in_words(&c.ty) > words {
            return false;
        }
        let arm = serialize_to_words(c, &c.ty, InByte8Padding::Left);
        return arm.len() as u128 <= 8 * (words as u128);
    }
    match &c.value {
        ConstantValue::Array(_) => {
            if let TypeContent::Array(_, _) = &ty.content {
                false
            } else {
                true
            }
        },
        ConstantValue::Struct(fields) => {
            if let TypeContent::Struct(tys) = &ty.content {
                let n: usize = if fields.len() <= tys.len() { fields.len() } else { tys.len() };
                let mut ok = true;
                let mut i: usize = 0;
                while i < n
                    invariant
                        n == common_len(fields@, tys@),
                        n <= fields@.len(),
                        n <= tys@.len(),
                        i <= n,
                        ok == fields_encodable(fields@, tys@, i as nat),
                        c.value == ConstantValue::Struct(*fields),
                        decreases_to!(*c => *fields),
                    decreases n - i,
                {
                    ok = ok && is_encodable(&fields[i], &tys[i]);
                    i = i + 1;
                }
                ok
            } else {
                true
            }
        },
        _ => true,
    }
}

/// Whether encoding `c` as a value of `ty` never reaches an array, as
/// `array_free` states it.
pub fn is_array_free(c: &Constant, ty: &Type) -> (r: bool)
    ensures
        r == array_free(*c, *ty),
    decreases *c, (if ty.content is Union { 1int } else { 0int }),
{
    if let ConstantValue::Undef = c.value {
        return true;
    }
    if let TypeContent::Union(_) = &ty.content {
        if let TypeContent::Union(_) = c.ty.content {
            return true;
        }
        return is_array_free(c, &c.ty);
    }
    match &c.value {
        ConstantValue::Array(_) => {
            if let TypeContent::Array(_, _) = &ty.content {
                false
            } else {
                true
            }
        },
        ConstantValue::Struct(fields) => {
            if let TypeContent::Struct(tys) = &ty.content {
                let n: usize = if fields.len() <= tys.len() { fields.len() } else { tys.len() };
                let mut ok = true;
                let mut i: usize = 0;
                while i < n
                    invariant
                        n == common_len(fields@, tys@),
                        n <= fields@.len(),
                        n <= tys@.len(),
                        i <= n,
                        ok == fields_array_free(fields@, tys@, i as nat),
                        c.value == ConstantValue::Struct(*fields),
                        decreases_to!(*c => *fields),
                    decreases n - i,
                {
                    ok = ok && is_array_free(&fields[i], &tys[i]);
                    i = i + 1;
                }
                ok
            } else {
                true
            }
        },
        _ => true,
    }
}

} // verus!
