use storage_slots::{
    add_to_b256, get_storage_key, is_array_free, is_encodable, is_storable,
    serialize_to_storage_slots, serialize_to_words, size_in_words, storage_key_preimage, Constant,
    ConstantValue, InByte8Padding, StateIndex, StorageSlot, Type, TypeContent,
};

// Types carry the sizes that the compiler's size oracle gives them: a unit
// takes no byte, a bool or u8 one, wider integers a word, and aggregates
// round each field up to a word.

fn aligned(size: u64) -> u64 {
    (size + 7) / 8 * 8
}

fn unit() -> Type {
    Type::new(TypeContent::Unit, 0)
}

fn bool_t() -> Type {
    Type::new(TypeContent::Bool, 1)
}

fn uint(bits: u16) -> Type {
    let size = match bits {
        8 => 1,
        256 => 32,
        _ => 8,
    };
    Type::new(TypeContent::Uint(bits), size)
}

fn b256() -> Type {
    Type::new(TypeContent::B256, 32)
}

fn str_arr(len: u64) -> Type {
    Type::new(TypeContent::StringArray(len), aligned(len))
}

fn array(elem: Type, count: u64) -> Type {
    let size = count * elem.size;
    Type::new(TypeContent::Array(Box::new(elem), count), size)
}

fn struct_t(fields: Vec<Type>) -> Type {
    let size = fields.iter().map(|f| aligned(f.size)).sum();
    Type::new(TypeContent::Struct(fields), size)
}

fn union_t(arms: Vec<Type>) -> Type {
    let size = arms.iter().map(|a| aligned(a.size)).max().unwrap_or(0);
    Type::new(TypeContent::Union(arms), size)
}

fn opaque(size: u64) -> Type {
    Type::new(TypeContent::Opaque, size)
}

fn hash(text: &str) -> [u8; 32] {
    fuel_crypto::Hasher::hash(text.as_bytes()).into()
}

fn konst(ty: Type, value: ConstantValue) -> Constant {
    Constant { ty, value }
}

fn slots_of(c: &Constant, ix: usize, ty: &Type, path: &[usize]) -> Vec<StorageSlot> {
    assert!(is_storable(c, ty));
    serialize_to_storage_slots(c, &StateIndex::new(ix), ty, path)
}

fn value_with_prefix(prefix: &[u8]) -> [u8; 32] {
    let mut v = [0u8; 32];
    v[..prefix.len()].copy_from_slice(prefix);
    v
}

#[test]
fn bool_scalar_takes_one_slot() {
    let c = konst(bool_t(), ConstantValue::Bool(true));
    let slots = slots_of(&c, 0, &bool_t(), &[]);
    assert_eq!(slots.len(), 1);
    assert_eq!(slots[0].key, hash("storage_0"));
    assert_eq!(slots[0].value, value_with_prefix(&[1]));
}

#[test]
fn bool_false_scalar_is_all_zero() {
    let c = konst(bool_t(), ConstantValue::Bool(false));
    let slots = slots_of(&c, 4, &bool_t(), &[]);
    assert_eq!(slots.len(), 1);
    assert_eq!(slots[0].key, hash("storage_4"));
    assert_eq!(slots[0].value, [0u8; 32]);
}

#[test]
fn uint8_scalar_takes_one_slot() {
    let c = konst(uint(8), ConstantValue::Uint(200));
    let slots = slots_of(&c, 3, &uint(8), &[]);
    assert_eq!(slots.len(), 1);
    assert_eq!(slots[0].key, hash("storage_3"));
    assert_eq!(slots[0].value, value_with_prefix(&[200]));
}

#[test]
fn uint8_scalar_keeps_low_byte() {
    let c = konst(uint(8), ConstantValue::Uint(0x1ff));
    let slots = slots_of(&c, 0, &uint(8), &[]);
    assert_eq!(slots[0].value, value_with_prefix(&[0xff]));
}

#[test]
fn wide_uint_scalar_is_big_endian_at_start() {
    let c = konst(uint(64), ConstantValue::Uint(0x0102_0304_0506_0708));
    let slots = slots_of(&c, 7, &uint(64), &[2, 5]);
    assert_eq!(slots.len(), 1);
    assert_eq!(slots[0].key, hash("storage_7_2_5"));
    assert_eq!(slots[0].value, value_with_prefix(&[1, 2, 3, 4, 5, 6, 7, 8]));
}

#[test]
fn unit_scalar_is_zero_slot() {
    let c = konst(unit(), ConstantValue::Unit);
    let slots = slots_of(&c, 12, &unit(), &[]);
    assert_eq!(slots.len(), 1);
    assert_eq!(slots[0].key, hash("storage_12"));
    assert_eq!(slots[0].value, [0u8; 32]);
}

fn sample_bytes() -> [u8; 32] {
    let mut b = [0u8; 32];
    for (i, x) in b.iter_mut().enumerate() {
        *x = (i as u8) * 7 + 3;
    }
    b
}

#[test]
fn u256_scalar_round_trips() {
    let b = sample_bytes();
    let c = konst(uint(256), ConstantValue::U256(b));
    let slots = slots_of(&c, 9, &uint(256), &[]);
    assert_eq!(slots.len(), 1);
    assert_eq!(slots[0].key, hash("storage_9"));
    assert_eq!(slots[0].value, b);
}

#[test]
fn b256_scalar_round_trips() {
    let b = sample_bytes();
    let c = konst(b256(), ConstantValue::B256(b));
    let slots = slots_of(&c, 31, &b256(), &[]);
    assert_eq!(slots.len(), 1);
    assert_eq!(slots[0].key, hash("storage_31"));
    assert_eq!(slots[0].value, b);
}

#[test]
fn struct_fields_pack_into_one_slot() {
    let ty = struct_t(vec![bool_t(), uint(8)]);
    let c = konst(
        struct_t(vec![bool_t(), uint(8)]),
        ConstantValue::Struct(vec![
            konst(bool_t(), ConstantValue::Bool(true)),
            konst(uint(8), ConstantValue::Uint(5)),
        ]),
    );
    let words = serialize_to_words(&c, &ty, InByte8Padding::Right);
    assert_eq!(words, vec![1, 0, 0, 0, 0, 0, 0, 0, 5, 0, 0, 0, 0, 0, 0, 0]);
    let slots = slots_of(&c, 1, &ty, &[]);
    assert_eq!(slots.len(), 1);
    assert_eq!(slots[0].key, hash("storage_1"));
    assert_eq!(slots[0].value, value_with_prefix(&[1, 0, 0, 0, 0, 0, 0, 0, 5]));
}

#[test]
fn struct_fields_ignore_left_padding() {
    let ty = struct_t(vec![bool_t()]);
    let c = konst(
        struct_t(vec![bool_t()]),
        ConstantValue::Struct(vec![konst(bool_t(), ConstantValue::Bool(true))]),
    );
    let words = serialize_to_words(&c, &ty, InByte8Padding::Left);
    assert_eq!(words, vec![1, 0, 0, 0, 0, 0, 0, 0]);
}

fn five_words() -> (Constant, Type) {
    let tys = || (0..5).map(|_| uint(64)).collect::<Vec<Type>>();
    let fields = (1..=5u64).map(|n| konst(uint(64), ConstantValue::Uint(n))).collect();
    (konst(struct_t(tys()), ConstantValue::Struct(fields)), struct_t(tys()))
}

#[test]
fn five_word_struct_takes_two_slots() {
    let (c, ty) = five_words();
    assert_eq!(ty.size, 40);
    let slots = slots_of(&c, 2, &ty, &[]);
    assert_eq!(slots.len(), 2);
    let base = hash("storage_2");
    assert_eq!(slots[0].key, base);
    assert_eq!(slots[1].key, add_to_b256(base, 1));
    let mut first = [0u8; 32];
    for i in 0..4 {
        first[8 * i + 7] = (i + 1) as u8;
    }
    assert_eq!(slots[0].value, first);
    assert_eq!(slots[1].value, value_with_prefix(&[0, 0, 0, 0, 0, 0, 0, 5]));
}

fn union_of_b256_and_u8() -> Type {
    union_t(vec![b256(), uint(8)])
}

#[test]
fn union_arm_is_left_padded() {
    let ty = union_of_b256_and_u8();
    let c = konst(uint(8), ConstantValue::Uint(7));
    let words = serialize_to_words(&c, &ty, InByte8Padding::Right);
    let mut expected = vec![0u8; 31];
    expected.push(7);
    assert_eq!(words, expected);
    let slots = slots_of(&c, 0, &ty, &[1]);
    assert_eq!(slots.len(), 1);
    assert_eq!(slots[0].key, hash("storage_0_1"));
    let mut value = [0u8; 32];
    value[31] = 7;
    assert_eq!(slots[0].value, value);
}

#[test]
fn union_arm_bool_left_padded_inside_struct() {
    let ty = struct_t(vec![uint(64), union_t(vec![bool_t(), unit()])]);
    let c = konst(
        struct_t(vec![uint(64), union_t(vec![bool_t(), unit()])]),
        ConstantValue::Struct(vec![
            konst(uint(64), ConstantValue::Uint(1)),
            konst(bool_t(), ConstantValue::Bool(true)),
        ]),
    );
    let words = serialize_to_words(&c, &ty, InByte8Padding::Right);
    assert_eq!(words, vec![0, 0, 0, 0, 0, 0, 0, 1, 0, 0, 0, 0, 0, 0, 0, 1]);
}

#[test]
fn array_is_not_storable() {
    let ty = array(uint(64), 2);
    let c = konst(
        array(uint(64), 2),
        ConstantValue::Array(vec![
            konst(uint(64), ConstantValue::Uint(1)),
            konst(uint(64), ConstantValue::Uint(2)),
        ]),
    );
    assert!(!is_storable(&c, &ty));
    assert!(!is_encodable(&c, &ty));
}

#[test]
fn array_field_is_not_encodable() {
    let arr = || array(bool_t(), 1);
    let ty = struct_t(vec![arr()]);
    let c = konst(
        struct_t(vec![arr()]),
        ConstantValue::Struct(vec![konst(
            arr(),
            ConstantValue::Array(vec![konst(bool_t(), ConstantValue::Bool(true))]),
        )]),
    );
    assert!(!is_encodable(&c, &ty));
    assert!(!is_storable(&c, &ty));
}

#[test]
fn oversized_union_arm_is_not_storable() {
    let ty = union_t(vec![bool_t()]);
    let c = konst(b256(), ConstantValue::B256([1u8; 32]));
    assert!(!is_encodable(&c, &ty));
    assert!(!is_storable(&c, &ty));
}

#[test]
fn serializing_twice_gives_same_slots() {
    let (c, ty) = five_words();
    let a = slots_of(&c, 5, &ty, &[0, 3]);
    let b = slots_of(&c, 5, &ty, &[0, 3]);
    assert_eq!(a, b);
}

#[test]
fn distinct_paths_give_distinct_keys() {
    let k = |ix: usize, path: &[usize]| get_storage_key(&StateIndex::new(ix), path);
    assert_ne!(k(1, &[]), k(2, &[]));
    assert_ne!(k(1, &[2]), k(12, &[]));
    assert_ne!(k(1, &[2, 3]), k(1, &[23]));
    assert_ne!(k(0, &[]), k(0, &[0]));
    assert_eq!(k(4, &[1, 2]), k(4, &[1, 2]));
}

#[test]
fn key_text_lists_index_and_path() {
    let text = storage_key_preimage(&StateIndex::new(2), &[0, 15, 300]);
    assert_eq!(text, b"storage_2_0_15_300".to_vec());
    let text = storage_key_preimage(&StateIndex::new(1234567890), &[]);
    assert_eq!(text, b"storage_1234567890".to_vec());
}

#[test]
fn storage_key_is_sha256_of_text() {
    let key = get_storage_key(&StateIndex::new(0), &[]);
    assert_ne!(key.to_vec(), b"storage_0".to_vec());
    assert_eq!(key.len(), 32);
    assert_eq!(key, hash("storage_0"));
    assert_ne!(key, hash("storage_00"));
}

#[test]
fn add_to_b256_carries() {
    let mut x = [0u8; 32];
    x[31] = 0xff;
    x[30] = 0xff;
    let r = add_to_b256(x, 1);
    let mut expected = [0u8; 32];
    expected[29] = 1;
    assert_eq!(r, expected);
    let mut small = [0u8; 32];
    small[30] = 1;
    small[31] = 2;
    assert_eq!(add_to_b256([0u8; 32], 0x0102), small);
}

#[test]
fn add_to_b256_wraps_around() {
    assert_eq!(add_to_b256([0xff; 32], 1), [0u8; 32]);
    let mut expected = [0u8; 32];
    expected[31] = 4;
    assert_eq!(add_to_b256([0xff; 32], 5), expected);
}

#[test]
fn add_to_b256_adds_full_u64() {
    let mut x = [0u8; 32];
    x[24] = 0xff;
    let r = add_to_b256(x, u64::MAX);
    let mut expected = [0u8; 32];
    expected[23] = 1;
    expected[24] = 0xfe;
    for b in expected.iter_mut().skip(25) {
        *b = 0xff;
    }
    assert_eq!(r, expected);
}

#[test]
fn string_array_is_right_padded_to_words() {
    let ty = str_arr(9);
    let c = konst(str_arr(9), ConstantValue::String(b"abcdefghi".to_vec()));
    let words = serialize_to_words(&c, &ty, InByte8Padding::Right);
    let mut expected = b"abcdefghi".to_vec();
    expected.extend([0u8; 7]);
    assert_eq!(words, expected);
    let slots = slots_of(&c, 6, &ty, &[]);
    assert_eq!(slots.len(), 1);
    assert_eq!(slots[0].key, hash("storage_6"));
    assert_eq!(slots[0].value, value_with_prefix(b"abcdefghi"));
}

#[test]
fn long_string_spans_consecutive_keys() {
    let text = vec![b'x'; 40];
    let ty = str_arr(40);
    let c = konst(str_arr(40), ConstantValue::String(text));
    let slots = slots_of(&c, 8, &ty, &[1]);
    assert_eq!(slots.len(), 2);
    let base = hash("storage_8_1");
    assert_eq!(slots[0].key, base);
    assert_eq!(slots[1].key, add_to_b256(base, 1));
    assert_eq!(slots[0].value, [b'x'; 32]);
    assert_eq!(slots[1].value, value_with_prefix(&[b'x'; 8]));
}

#[test]
fn undefined_constant_takes_no_slot() {
    let c = konst(uint(64), ConstantValue::Undef);
    assert!(slots_of(&c, 0, &uint(64), &[]).is_empty());
    let ty = union_of_b256_and_u8();
    let c = konst(uint(8), ConstantValue::Undef);
    assert!(slots_of(&c, 0, &ty, &[]).is_empty());
}

#[test]
fn mismatched_constant_takes_no_slot() {
    let c = konst(bool_t(), ConstantValue::Bool(true));
    assert!(slots_of(&c, 0, &uint(64), &[]).is_empty());
    let ty = struct_t(vec![bool_t()]);
    assert!(slots_of(&c, 0, &ty, &[]).is_empty());
}

#[test]
fn word_counts_round_up() {
    assert_eq!(size_in_words(&bool_t()), 1);
    assert_eq!(size_in_words(&unit()), 0);
    assert_eq!(size_in_words(&uint(256)), 4);
    assert_eq!(size_in_words(&opaque(9)), 2);
    assert_eq!(size_in_words(&opaque(u64::MAX)), u64::MAX / 8 + 1);
    assert_eq!(size_in_words(&struct_t(vec![bool_t(), b256()])), 5);
}

#[test]
fn bool_word_padding_follows_mode() {
    let c = konst(bool_t(), ConstantValue::Bool(true));
    assert_eq!(serialize_to_words(&c, &bool_t(), InByte8Padding::Right), vec![1, 0, 0, 0, 0, 0, 0, 0]);
    assert_eq!(serialize_to_words(&c, &bool_t(), InByte8Padding::Left), vec![0, 0, 0, 0, 0, 0, 0, 1]);
}

#[test]
fn slot_count_follows_encoded_words() {
    let ty = str_arr(0);
    let c = konst(str_arr(0), ConstantValue::String(vec![b'z']));
    let slots = slots_of(&c, 3, &ty, &[]);
    assert_eq!(slots.len(), 1);
    assert_eq!(slots[0].key, hash("storage_3"));
    assert_eq!(slots[0].value, value_with_prefix(&[b'z']));
}

#[test]
fn union_pads_arm_encoding_to_union_size() {
    let ty = union_t(vec![str_arr(16)]);
    let c = konst(str_arr(16), ConstantValue::String(vec![b'a']));
    let words = serialize_to_words(&c, &ty, InByte8Padding::Right);
    let mut expected = vec![0u8; 8];
    expected.push(b'a');
    expected.extend([0u8; 7]);
    assert_eq!(words, expected);
    let slots = slots_of(&c, 0, &ty, &[]);
    assert_eq!(slots.len(), 1);
    assert_eq!(slots[0].value, value_with_prefix(&expected));
}

#[test]
fn array_check_tells_arrays_apart() {
    let arr = || array(bool_t(), 1);
    let c = konst(
        arr(),
        ConstantValue::Array(vec![konst(bool_t(), ConstantValue::Bool(true))]),
    );
    assert!(!is_array_free(&c, &arr()));
    let ty = union_t(vec![bool_t()]);
    let big = konst(b256(), ConstantValue::B256([1u8; 32]));
    assert!(is_array_free(&big, &ty));
    assert!(!is_storable(&big, &ty));
}

#[test]
fn opaque_field_gives_no_words() {
    let tys = || vec![uint(64), opaque(16)];
    let ty = struct_t(tys());
    assert_eq!(ty.size, 24);
    let c = konst(
        struct_t(tys()),
        ConstantValue::Struct(vec![
            konst(uint(64), ConstantValue::Uint(9)),
            konst(opaque(16), ConstantValue::Opaque),
        ]),
    );
    let words = serialize_to_words(&c, &ty, InByte8Padding::Right);
    assert_eq!(words, vec![0, 0, 0, 0, 0, 0, 0, 9]);
}

#[test]
fn union_padding_uses_oracle_size() {
    // An enum-like union of a three-byte array and a u64 is one word wide.
    let ty = union_t(vec![array(uint(8), 3), uint(64)]);
    assert_eq!(ty.size, 8);
    let c = konst(uint(64), ConstantValue::Uint(0x0102));
    let words = serialize_to_words(&c, &ty, InByte8Padding::Right);
    assert_eq!(words, vec![0, 0, 0, 0, 0, 0, 1, 2]);
}

#[test]
fn arm_type_larger_than_union_is_not_storable() {
    // The arm's constant encodes to one word, but its type spans two.
    let ty = union_t(vec![uint(64)]);
    let arm = konst(
        struct_t(vec![uint(64), uint(64)]),
        ConstantValue::Struct(vec![konst(uint(64), ConstantValue::Uint(1))]),
    );
    assert!(!is_encodable(&arm, &ty));
    assert!(!is_storable(&arm, &ty));
    assert!(is_array_free(&arm, &ty));
}

#[test]
fn unaligned_aggregate_is_not_storable() {
    let ty = Type::new(TypeContent::Struct(vec![bool_t()]), 12);
    let c = konst(
        struct_t(vec![bool_t()]),
        ConstantValue::Struct(vec![konst(bool_t(), ConstantValue::Bool(true))]),
    );
    assert!(is_encodable(&c, &ty));
    assert!(!is_storable(&c, &ty));
}
