use vstd::prelude::*;

verus! {

/// A 256-bit word as 32 bytes, most significant byte first.
#[derive(Clone, Copy, Debug, PartialEq, Eq)]
pub struct Bitmap {
    pub bytes: [u8; 32],
}

/// The execution signal: how many nodes ran, and which of them failed.
#[derive(Clone, Copy, Debug, PartialEq, Eq)]
pub struct Signal {
    pub counter: u16,
    pub bitmap: Bitmap,
}

impl Bitmap {
    /// Bit `index` of the word, counted from the least significant end.
    pub open spec fn spec_bit(self, index: int) -> bool {
        &&& 0 <= index < 256
        &&& (self.bytes@[31 - index / 8] >> ((index % 8) as u8)) & 1u8 == 1u8
    }

    /// No bit of the word is set.
    pub open spec fn is_zero(self) -> bool {
        forall|index: int| !#[trigger] self.spec_bit(index)
    }

    pub fn new(bytes: [u8; 32]) -> (r: Bitmap)
        ensures
            r.bytes@ == bytes@,
    {
        Bitmap { bytes }
    }

    pub fn bit(&self, index: u16) -> (r: bool)
        requires
            index < 256,
        ensures
            r == self.spec_bit(index as int),
    {
        let byte = self.bytes[(31 - index / 8) as usize];
        (byte >> ((index % 8) as u8)) & 1u8 == 1u8
    }
}

/// Reads the signal that the executor emits: a 32-byte big-endian counter
/// followed by the 32-byte bitmap. `None` where the data is shorter than
/// that or the counter does not fit in 16 bits.
pub fn parse_signal(data: &Vec<u8>) -> (r: Option<Signal>)
    ensures
        r is Some <==> data.len() >= 64 && forall|j: int| 0 <= j < 30 ==> data@[j] == 0,
        r matches Some(s) ==> {
            &&& s.counter as int == data@[30] as int * 256 + data@[31] as int
            &&& s.bitmap.bytes@ == data@.subrange(32, 64)
        },
{
    if data.len() < 64 {
        return None;
    }
    let mut j: usize = 0;
    while j < 30
        invariant
            0 <= j <= 30,
            data.len() >= 64,
            forall|m: int| 0 <= m < j ==> data@[m] == 0,
        decreases 30 - j,
    {
        if data[j] != 0 {
            return None;
        }
        j += 1;
    }
    let counter: u16 = (data[30] as u16) * 256 + (data[31] as u16);
    let mut bytes: [u8; 32] = [0u8; 32];
    let mut k: usize = 0;
    while k < 32
        invariant
            0 <= k <= 32,
            data.len() >= 64,
            forall|m: int| 0 <= m < k ==> bytes@[m] == data@[32 + m],
        decreases 32 - k,
    {
        bytes.set(k, data[32 + k]);
        k += 1;
    }
    assert(bytes@ =~= data@.subrange(32, 64));
    Some(Signal { counter, bitmap: Bitmap { bytes } })
}

} // verus!
