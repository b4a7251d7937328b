use crate::bytes::{
    add_to_b256, be_bytes, be_value, lemma_be_value_bound, lemma_be_value_injective, pow256,
};
use crate::ir::{Constant, ConstantValue, InByte8Padding, StateIndex, StorageSlot, Type, TypeContent};
use crate::key::{decimal, domain_separator, get_storage_key, sha256_of, storage_key};
use crate::words::{
    array_free, be_word, encodable, is_encodable, serialize_to_words, spec_words, zeros,
};
use vstd::arithmetic::div_mod::lemma_small_mod;
use vstd::prelude::*;

verus! {

/// The value of the single slot that holds a scalar: its encoding at the
/// start of 32 bytes, zero after it. `None` where `c` with `ty` is no scalar.
pub open spec fn scalar_value(c: Constant, ty: Type) -> Option<Seq<u8>> {
    match c.value {
        ConstantValue::Unit => if ty.content is Unit { Some(zeros(32)) } else { None },
        ConstantValue::Bool(b) => if ty.content is Bool {
            Some(seq![if b { 1u8 } else { 0u8 }] + zeros(31))
        } else {
            None
        },
        ConstantValue::Uint(n) => if ty.content == TypeContent::Uint(8) {
            Some(seq![(n % 256) as u8] + zeros(31))
        } else if ty.content is Uint {
            Some(be_bytes(n as nat, 8) + zeros(24))
        } else {
            None
        },
        ConstantValue::U256(b) => if ty.content == TypeContent::Uint(256) { Some(b@) } else { None },
        ConstantValue::B256(b) => if ty.content is B256 { Some(b@) } else { None },
        _ => None,
    }
}

/// Types whose values are spread over consecutive slots.
pub open spec fn is_aggregate(ty: Type) -> bool {
    ty.content is StringArray || ty.content is Struct || ty.content is Union
}

/// The number of zero bytes that bring `len` up to a whole slot.
pub open spec fn slot_padding(len: nat) -> nat {
    if len % 32 == 0 { 0 } else { (32 - len % 32) as nat }
}

/// The words of an aggregate, zero-filled up to a whole number of slots.
pub open spec fn packed_words(c: Constant, ty: Type) -> Seq<u8> {
    let words = spec_words(c, ty, InByte8Padding::Right);
    words + zeros(slot_padding(words.len()))
}

/// The values of the slots that hold `c` as a value of `ty`, in order.
///
/// An undefined constant takes no slot; a scalar takes one. An aggregate
/// takes one slot per four of its packed words. Any other pairing of
/// constant and type takes no slot.
pub open spec fn slot_values(c: Constant, ty: Type) -> Seq<Seq<u8>> {
    if c.value is Undef {
        seq![]
    } else if scalar_value(c, ty) is Some {
        seq![scalar_value(c, ty)->Some_0]
    } else if is_aggregate(ty) {
        let packed = packed_words(c, ty);
        Seq::new(packed.len() / 32, |i: int| packed.subrange(32 * i, 32 * i + 32))
    } else {
        seq![]
    }
}

/// Whether `key` is the key of slot `i` of a value whose first slot has key
/// `base`: `base` itself for the first slot, and for the others `base` read
/// as a big-endian 256-bit number, plus `i`, wrapping around.
pub open spec fn is_key_after(key: Seq<u8>, base: Seq<u8>, i: nat) -> bool {
    if i == 0 {
        key == base
    } else {
        be_value(key) == (be_value(base) + i) % pow256(32)
    }
}

/// Whether `slots` is the storage image of `c` as a value of `ty` at state
/// index `ix` and subfield path `path`.
pub open spec fn is_storage_image(
    c: Constant,
    ty: Type,
    ix: nat,
    path: Seq<usize>,
    slots: Seq<StorageSlot>,
) -> bool {
    let values = slot_values(c, ty);
    &&& slots.len() == values.len()
    &&& forall|i: int|
        #![trigger slots[i]]
        0 <= i < slots.len() ==> {
            &&& slots[i].value@ == values[i]
            &&& is_key_after(slots[i].key@, storage_key(ix, path), i as nat)
        }
}

/// Whether `c` as a value of `ty` can be stored. Storing fails on an array,
/// and on an aggregate that cannot be encoded or whose size is not a whole
/// number of words.
pub open spec fn storable(c: Constant, ty: Type) -> bool {
    &&& !(c.value is Array && ty.content is Array)
    &&& (c.value !is Undef && scalar_value(c, ty) is None && is_aggregate(ty)) ==> {
        &&& ty.size % 8 == 0
        &&& encodable(c, ty)
    }
}

/// The 32 bytes of the slot that holds a scalar, or `None` for a constant
/// and type that are no scalar.
fn scalar_slot_value(c: &Constant, ty: &Type) -> (r: Option<[u8; 32]>)
    ensures
        r is Some == scalar_value(*c, *ty) is Some,
        r is Some ==> r->Some_0@ == scalar_value(*c, *ty)->Some_0,
{
    let mut v: [u8; 32] = [0u8; 32];
    match &c.value {
        ConstantValue::Unit => {
            if let TypeContent::Unit = &ty.content {
                proof {
                    assert(v@ =~= zeros(32));
                }
                return Some(v);
            }
        },
        ConstantValue::Bool(b) => {
            if let TypeContent::Bool = &ty.content {
                v[0] = if *b { 1 } else { 0 };
                proof {
                    assert(v@ =~= seq![if *b { 1u8 } else { 0u8 }] + zeros(31));
                }
                return Some(v);
            }
        },
        ConstantValue::Uint(n) => {
            if let TypeContent::Uint(bits) = &ty.content {
                if *bits == 8 {
                    v[0] = (*n % 256) as u8;
                    proof {
                        assert(v@ =~= seq![(*n % 256) as u8] + zeros(31));
                    }
                } else {
                    let w = be_word(*n);
                    let mut j: usize = 0;
                    while j < 8
                        invariant
                            j <= 8,
                            forall|k: int| 0 <= k < j ==> v[k] == w[k],
                            forall|k: int| 8 <= k < 32 ==> v[k] == 0,
                        decreases 8 - j,
                    {
                        v[j] = w[j];
                        j = j + 1;
                    }
                    proof {
                        assert(v@ =~= be_bytes(*n as nat, 8) + zeros(24));
                    }
                }
                return Some(v);
            }
        },
        ConstantValue::U256(b) => {
            if let TypeContent::Uint(bits) = &ty.content {
                if *bits == 256 {
                    return Some(*b);
                }
            }
        },
        ConstantValue::B256(b) => {
            if let TypeContent::B256 = &ty.content {
                return Some(*b);
            }
        },
        _ => {},
    }
    None
}

/// Whether `c` as a value of `ty` can be stored, as `storable` states it.
pub fn is_storable(c: &Constant, ty: &Type) -> (r: bool)
    ensures
        r == storable(*c, *ty),
{
    if let ConstantValue::Array(_) = c.value {
        if let TypeContent::Array(_, _) = &ty.content {
            return false;
        }
    }
    if let ConstantValue::Undef = c.value {
        return true;
    }
    if let Some(_) = scalar_slot_value(c, ty) {
        return true;
    }
    match &ty.content {
        TypeContent::StringArray(_) | TypeContent::Struct(_) | TypeContent::Union(_) => {
            ty.size % 8 == 0 && is_encodable(c, ty)
        },
        _ => true,
    }
}

/// The 32 bytes of `packed` from `start` on.
fn slot_at(packed: &Vec<u8>, start: usize) -> (r: [u8; 32])
    requires
        start + 32 <= packed@.len(),
    ensures
        r@ == packed@.subrange(start as int, start + 32),
{
    let mut v: [u8; 32] = [0u8; 32];
    let len = packed.len();
    let mut j: usize = 0;
    while j < 32
        invariant
            j <= 32,
            len == packed@.len(),
            start + 32 <= packed@.len(),
            forall|k: int| 0 <= k < j ==> v[k] == packed@[start + k],
        decreases 32 - j,
    {
        v[j] = packed[start + j];
        j = j + 1;
    }
    proof {
        assert(v@ =~= packed@.subrange(start as int, start + 32));
    }
    v
}

/// Serializes the constant `constant` of type `ty` into the storage slots of
/// state index `ix` reached through the subfield offsets `indices`.
///
/// A scalar takes one slot, keyed by `get_storage_key`, with its encoding at
/// the start of the value. A string array, struct or union is encoded into
/// words, zero-filled to whole slots and spread over consecutive keys, the
/// first being `get_storage_key` and each next one the previous plus one.
/// This matches how storage reads and writes address the same values.
pub fn serialize_to_storage_slots(
    constant: &Constant,
    ix: &StateIndex,
    ty: &Type,
    indices: &[usize],
) -> (r: Vec<StorageSlot>)
    requires
        storable(*constant, *ty),
    ensures
        is_storage_image(*constant, *ty, ix.index as nat, indices@, r@),
{
    let mut slots: Vec<StorageSlot> = Vec::new();
    if let ConstantValue::Undef = constant.value {
        return slots;
    }
    if let Some(value) = scalar_slot_value(constant, ty) {
        let key = get_storage_key(ix, indices);
        slots.push(StorageSlot::new(key, value));
        return slots;
    }
    let aggregate = match &ty.content {
        TypeContent::StringArray(_) | TypeContent::Struct(_) | TypeContent::Union(_) => true,
        _ => false,
    };
    if !aggregate {
        return slots;
    }
    let mut packed = serialize_to_words(constant, ty, InByte8Padding::Right);
    let ghost words = packed@;
    let rem = packed.len() % 32;
    if rem != 0 {
        let mut k: usize = rem;
        while k < 32
            invariant
                rem <= k <= 32,
                rem == words.len() % 32,
                packed@ == words + zeros((k - rem) as nat),
            decreases 32 - k,
        {
            packed.push(0);
            k = k + 1;
            proof {
                assert(packed@ =~= words + zeros((k - rem) as nat));
            }
        }
    } else {
        proof {
            assert(packed@ =~= words + zeros(0));
        }
    }
    let value_count: usize = packed.len() / 32;
    let base = get_storage_key(ix, indices);
    let ghost values = slot_values(*constant, *ty);
    let mut i: usize = 0;
    while i < value_count
        invariant
            packed@ == packed_words(*constant, *ty),
            value_count == packed@.len() / 32,
            values == slot_values(*constant, *ty),
            i <= value_count,
            base@ == storage_key(ix.index as nat, indices@),
            slots@.len() == i,
            packed@.len() <= usize::MAX,
            forall|j: int|
                #![trigger slots@[j]]
                0 <= j < i ==> {
                    &&& slots@[j].value@ == values[j]
                    &&& is_key_after(slots@[j].key@, base@, j as nat)
                },
        decreases value_count - i,
    {
        proof {
            let len = packed@.len() as int;
            let ii = i as int;
            assert(32 * ii + 32 <= len) by (nonlinear_arith)
                requires ii < len / 32, len >= 0;
        }
        let key = add_to_b256(base, i as u64);
        proof {
            if i == 0 {
                lemma_be_value_bound(base@);
                lemma_small_mod(be_value(base@), pow256(32));
                lemma_be_value_injective(key@, base@);
            }
        }
        let value = slot_at(&packed, 32 * i);
        let ghost before = slots@;
        slots.push(StorageSlot::new(key, value));
        proof {
            assert(values[i as int] == packed@.subrange(32 * i, 32 * i + 32));
            assert(slots@[i as int].value@ == values[i as int]);
            assert(is_key_after(slots@[i as int].key@, base@, i as nat));
            assert forall|j: int| 0 <= j < i implies #[trigger] slots@[j] == before[j] by {}
        }
        i = i + 1;
    }
    proof {
        assert(slots@.len() == values.len());
    }
    slots
}

/// Storing is deterministic: a constant, its type, a state index and a path
/// have one storage image, so two runs on the same arguments give the same
/// slots, byte for byte.
pub proof fn lemma_storage_image_unique(
    c: Constant,
    ty: Type,
    ix: nat,
    path: Seq<usize>,
    s1: Seq<StorageSlot>,
    s2: Seq<StorageSlot>,
)
    requires
        is_storage_image(c, ty, ix, path, s1),
        is_storage_image(c, ty, ix, path, s2),
    ensures
        s1 == s2,
{
    assert forall|i: int| 0 <= i < s1.len() implies s1[i] == s2[i] by {
        assert(s1[i].value =~= s2[i].value);
        if i > 0 {
            lemma_be_value_injective(s1[i].key@, s2[i].key@);
        }
        assert(s1[i].key =~= s2[i].key);
    }
    assert(s1 =~= s2);
}

/// A 256-bit constant, integer or byte array, takes exactly one slot. Its
/// key is the hash of `storage_<ix>` and its value the constant's 32
/// big-endian bytes, unchanged.
pub proof fn lemma_b256_single_slot(c: Constant, ty: Type, ix: nat, slots: Seq<StorageSlot>)
    requires
        (c.value is U256 && ty.content == TypeContent::Uint(256)) || (c.value is B256 && ty.content is B256),
        is_storage_image(c, ty, ix, seq![], slots),
    ensures
        slots.len() == 1,
        slots[0].key@ == sha256_of(domain_separator() + decimal(ix)),
        c.value matches ConstantValue::U256(b) ==> slots[0].value@ == b@,
        c.value matches ConstantValue::B256(b) ==> slots[0].value@ == b@,
{
    assert(slots[0].key@ == storage_key(ix, seq![]));
}

/// An aggregate of five words takes two slots: the first keyed by the
/// storage key, the second by that key plus one. The first holds the first
/// four words, the second the fifth followed by zeros.
pub proof fn lemma_five_word_aggregate(
    c: Constant,
    ty: Type,
    ix: nat,
    path: Seq<usize>,
    slots: Seq<StorageSlot>,
)
    requires
        is_aggregate(ty),
        c.value !is Undef,
        spec_words(c, ty, InByte8Padding::Right).len() == 40,
        is_storage_image(c, ty, ix, path, slots),
    ensures
        slots.len() == 2,
        slots[0].key@ == storage_key(ix, path),
        be_value(slots[1].key@) == (be_value(storage_key(ix, path)) + 1) % pow256(32),
        slots[0].value@ == spec_words(c, ty, InByte8Padding::Right).subrange(0, 32),
        slots[1].value@ == spec_words(c, ty, InByte8Padding::Right).subrange(32, 40) + zeros(24),
{
    let words = spec_words(c, ty, InByte8Padding::Right);
    let packed = packed_words(c, ty);
    assert(packed.len() == 64);
    assert(slots[0].value@ =~= words.subrange(0, 32));
    assert(slots[1].value@ =~= words.subrange(32, 40) + zeros(24));
}

/// A union sized for a 256-bit arm whose active arm is an 8-bit integer
/// takes four words: three zero words, then the integer padded on the left.
/// They fill one slot.
pub proof fn lemma_union_left_padding(c: Constant, ty: Type, n: u64)
    requires
        ty.content is Union,
        ty.size == 32,
        c.ty.content == TypeContent::Uint(8),
        c.value == ConstantValue::Uint(n),
    ensures
        spec_words(c, ty, InByte8Padding::Right) == zeros(24) + (zeros(7) + seq![(n % 256) as u8]),
        slot_values(c, ty) == seq![spec_words(c, ty, InByte8Padding::Right)],
{
    let words = spec_words(c, ty, InByte8Padding::Right);
    assert(spec_words(c, c.ty, InByte8Padding::Left) == zeros(7) + seq![(n % 256) as u8]);
    assert(words =~= zeros(24) + (zeros(7) + seq![(n % 256) as u8]));
    let packed = packed_words(c, ty);
    assert(packed =~= words);
    assert(packed.subrange(0, 32) =~= words);
    assert(slot_values(c, ty) =~= seq![words]);
}

/// An array constant of an array type cannot be stored, nor encoded into
/// words: storage does not hold arrays.
pub proof fn lemma_array_not_storable(c: Constant, ty: Type)
    requires
        c.value is Array,
        ty.content is Array,
    ensures
        !storable(c, ty),
        !encodable(c, ty),
        !array_free(c, ty),
{
}

} // verus!
