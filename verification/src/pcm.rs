//! Conversion of the clipped output buffer to the signed 16-bit PCM
//! representation the external encoder consumes.

use vstd::prelude::*;

verus! {

/// Full-scale signed 16-bit PCM value of a clipped fixed-point amplitude:
/// c * 32767 / UNIT rounded half away from zero, so UNIT maps to 32767
/// and -UNIT to -32767.
pub open spec fn pcm_of(c: int) -> int {
    if c >= 0 {
        (c * 32767 + 16384) / 32768
    } else {
        -(((-c) * 32767 + 16384) / 32768)
    }
}

/// Convert a clipped output buffer to interleaved 16-bit PCM.
#[verifier::loop_isolation(false)]
pub fn to_pcm(data: &Vec<i128>) -> (p: Vec<i16>)
    requires
        forall|j: int|
            0 <= j < data@.len() ==> -(crate::UNIT as int) <= (#[trigger] data@[j]) as int
                <= crate::UNIT as int,
    ensures
        p@.len() == data@.len(),
        forall|j: int| 0 <= j < data@.len() ==> (#[trigger] p@[j]) as int == pcm_of(data@[j] as int),
{
    let mut p: Vec<i16> = Vec::new();
    let mut i: usize = 0;
    while i < data.len()
        invariant
            i <= data@.len(),
            p@.len() == i,
            forall|j: int| 0 <= j < i ==> (#[trigger] p@[j]) as int == pcm_of(data@[j] as int),
        decreases data@.len() - i,
    {
        let c = data[i];
        let v: i16 = if c >= 0 {
            let cu = c as u64;
            let r = (cu * 32767 + 16384) / 32768;
            proof {
                vstd::arithmetic::div_mod::lemma_div_is_ordered(
                    (cu as int) * 32767 + 16384,
                    32768int * 32767 + 16384,
                    32768int,
                );
            }
            r as i16
        } else {
            let cu = (-c) as u64;
            let r = (cu * 32767 + 16384) / 32768;
            proof {
                vstd::arithmetic::div_mod::lemma_div_is_ordered(
                    (cu as int) * 32767 + 16384,
                    32768int * 32767 + 16384,
                    32768int,
                );
            }
            -(r as i16)
        };
        p.push(v);
        i = i + 1;
    }
    p
}

} // verus!
