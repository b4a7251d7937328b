use crate::ir::Type;
use vstd::prelude::*;

verus! {

/// The number of 8-byte words that a value of `ty` occupies: its size in
/// bytes, rounded up to whole words.
pub open spec fn spec_size_in_words(ty: Type) -> nat {
    ((ty.size + 7) / 8) as nat
}

/// The size in 8-byte words of `ty`.
pub fn size_in_words(ty: &Type) -> (r: u64)
    ensures
        r == spec_size_in_words(*ty),
{
    ty.size / 8 + if ty.size % 8 == 0 { 0 } else { 1 }
}

} // verus!
