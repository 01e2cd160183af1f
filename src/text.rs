use vstd::prelude::*;

verus! {

/// The font families of the interface.
#[derive(Debug, PartialEq, Eq, Structural, Clone, Copy, Hash)]
pub enum TextFamily {
    BloodCyrillic,
    NotoSans,
}

/// Identifies a rendered text: a hash of its content and its total length.
#[derive(Clone, Copy, Debug, Hash, PartialEq, Eq, Structural)]
pub struct TextCacheKey {
    pub hash_code: u64,
    pub total_length: usize,
}

/// The handle of a key: the hash in the high 64 bits, the length in the low ones.
pub open spec fn handle_of(hash_code: u64, total_length: usize) -> u128 {
    ((hash_code as u128) << 64u128) | (total_length as u128)
}

impl TextCacheKey {
    pub fn to_handle(&self) -> (r: u128)
        ensures
            r == handle_of(self.hash_code, self.total_length),
    {
        let high = (self.hash_code as u128) << 64u128;
        let low = self.total_length as u128;
        high | low
    }

    pub fn from_handle(handle: u128) -> (r: TextCacheKey)
        ensures
            r.hash_code == (handle >> 64u128) as u64,
            r.total_length == handle as u64 as usize,
    {
        TextCacheKey { hash_code: (handle >> 64u128) as u64, total_length: handle as u64 as usize }
    }
}

/// A key survives the trip to a handle and back.
pub proof fn lemma_handle_round_trip(k: TextCacheKey)
    ensures
        ((handle_of(k.hash_code, k.total_length) >> 64u128) as u64) == k.hash_code,
        (handle_of(k.hash_code, k.total_length) as u64 as usize) == k.total_length,
{
    let h = k.hash_code;
    let l = k.total_length as u64;
    assert(l as u128 == k.total_length as u128);
    assert(((((h as u128) << 64u128) | (l as u128)) >> 64u128) as u64 == h) by (bit_vector);
    assert(((((h as u128) << 64u128) | (l as u128)) as u64) == l) by (bit_vector);
}

} // verus!
